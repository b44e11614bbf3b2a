//! The write-ahead log: entries, their one-line record form, checksums, and
//! the log's sequence numbering.
//!
//! A record is one line of JSON, as in
//! `{"sequence_number":42,"operation":{"Delete":{"key":"a"}},"timestamp":"...","checksum":"9f0c..."}`.
//! In strings, `"` and `\` are escaped with a backslash and control
//! characters below 0x20 are written `\u00xx`; every other byte stands as
//! it is. Reading also takes the other standard JSON escapes (`\/`, `\n`,
//! `\t`, `\r`, `\b`, `\f`, and `\u00XX` for ASCII in either case), but
//! only this field order and no whitespace between tokens.
use crate::error::{owned, StorageError, StorageResult};
use crate::text::{all_ascii, ascii_chars, ascii_string, decimal, decimal_digits, digits_value, is_digit, lemma_ascii_utf8, lemma_decimal_digits, string_from_utf8};
use vstd::prelude::*;
use vstd::utf8::{decode_utf8, encode_utf8, valid_utf8};

verus! {

/// `{"sequence_number":`
pub const L_SEQ: [u8; 19] = [123, 34, 115, 101, 113, 117, 101, 110, 99, 101, 95, 110, 117, 109, 98, 101, 114, 34, 58];

pub open spec fn l_seq() -> Seq<u8> {
    seq![123u8, 34, 115, 101, 113, 117, 101, 110, 99, 101, 95, 110, 117, 109, 98, 101, 114, 34, 58]
}

/// `,"operation":`
pub const L_OP: [u8; 13] = [44, 34, 111, 112, 101, 114, 97, 116, 105, 111, 110, 34, 58];

pub open spec fn l_op() -> Seq<u8> {
    seq![44u8, 34, 111, 112, 101, 114, 97, 116, 105, 111, 110, 34, 58]
}

/// `"Clear"`
pub const CLEAR: [u8; 7] = [34, 67, 108, 101, 97, 114, 34];

pub open spec fn clear() -> Seq<u8> {
    seq![34u8, 67, 108, 101, 97, 114, 34]
}

/// `{"Put":{"key":`
pub const PUT_KEY: [u8; 14] = [123, 34, 80, 117, 116, 34, 58, 123, 34, 107, 101, 121, 34, 58];

pub open spec fn put_key() -> Seq<u8> {
    seq![123u8, 34, 80, 117, 116, 34, 58, 123, 34, 107, 101, 121, 34, 58]
}

/// `,"value":`
pub const VALUE_SEP: [u8; 9] = [44, 34, 118, 97, 108, 117, 101, 34, 58];

pub open spec fn value_sep() -> Seq<u8> {
    seq![44u8, 34, 118, 97, 108, 117, 101, 34, 58]
}

/// `}}`
pub const CLOSE2: [u8; 2] = [125, 125];

pub open spec fn close2() -> Seq<u8> {
    seq![125u8, 125]
}

/// `{"Delete":{"key":`
pub const DEL_KEY: [u8; 17] = [123, 34, 68, 101, 108, 101, 116, 101, 34, 58, 123, 34, 107, 101, 121, 34, 58];

pub open spec fn del_key() -> Seq<u8> {
    seq![123u8, 34, 68, 101, 108, 101, 116, 101, 34, 58, 123, 34, 107, 101, 121, 34, 58]
}

/// `,"timestamp":`
pub const L_TS: [u8; 13] = [44, 34, 116, 105, 109, 101, 115, 116, 97, 109, 112, 34, 58];

pub open spec fn l_ts() -> Seq<u8> {
    seq![44u8, 34, 116, 105, 109, 101, 115, 116, 97, 109, 112, 34, 58]
}

/// `,"checksum":`
pub const L_CK: [u8; 12] = [44, 34, 99, 104, 101, 99, 107, 115, 117, 109, 34, 58];

pub open spec fn l_ck() -> Seq<u8> {
    seq![44u8, 34, 99, 104, 101, 99, 107, 115, 117, 109, 34, 58]
}

/// `null`
pub const NULL: [u8; 4] = [110, 117, 108, 108];

pub open spec fn null() -> Seq<u8> {
    seq![110u8, 117, 108, 108]
}

/// What an operation in the log does.
#[derive(Debug, Clone, PartialEq)]
pub enum WalOperation {
    /// Store `value` under `key`.
    Put { key: String, value: String },
    /// Remove `key`.
    Delete { key: String },
    /// Remove every key.
    Clear,
}

/// An operation as plain text values.
pub enum OpModel {
    Put(Seq<char>, Seq<char>),
    Delete(Seq<char>),
    Clear,
}

impl View for WalOperation {
    type V = OpModel;

    open spec fn view(&self) -> OpModel {
        match self {
            WalOperation::Put { key, value } => OpModel::Put(key@, value@),
            WalOperation::Delete { key } => OpModel::Delete(key@),
            WalOperation::Clear => OpModel::Clear,
        }
    }
}

/// One entry of the log.
#[derive(Debug, Clone, PartialEq)]
pub struct WalEntry {
    /// Position of the entry in the log, from 1.
    pub sequence_number: u64,
    /// The logged operation.
    pub operation: WalOperation,
    /// When the operation was logged.
    pub timestamp: String,
    /// Checksum of the entry's content, if one was computed.
    pub checksum: Option<String>,
}

/// An entry as plain values.
pub struct EntryModel {
    pub seq: u64,
    pub op: OpModel,
    pub timestamp: Seq<char>,
    pub checksum: Option<Seq<char>>,
}

impl View for WalEntry {
    type V = EntryModel;

    open spec fn view(&self) -> EntryModel {
        EntryModel {
            seq: self.sequence_number,
            op: self.operation@,
            timestamp: self.timestamp@,
            checksum: match self.checksum {
                Some(c) => Some(c@),
                None => None,
            },
        }
    }
}

/// Lowercase hexadecimal digit of `d < 16`.
pub open spec fn hex_digit(d: nat) -> u8 {
    if d < 10 { (48 + d) as u8 } else { (87 + d) as u8 }
}

/// The escaped form of byte `c` inside a quoted string.
pub open spec fn esc(c: u8) -> Seq<u8> {
    if c == 34 {
        seq![92u8, 34]
    } else if c == 92 {
        seq![92u8, 92]
    } else if c < 32 {
        seq![92u8, 117, 48, 48, hex_digit(c as nat / 16), hex_digit(c as nat % 16)]
    } else {
        seq![c]
    }
}

/// The escaped form of the bytes `s`.
pub open spec fn escape(s: Seq<u8>) -> Seq<u8>
    decreases s.len(),
{
    if s.len() == 0 {
        Seq::empty()
    } else {
        esc(s[0]) + escape(s.drop_first())
    }
}

/// Text as a quoted, escaped string.
pub open spec fn quoted(s: Seq<char>) -> Seq<u8> {
    seq![34u8] + escape(encode_utf8(s)) + seq![34u8]
}

pub open spec fn op_bytes(op: OpModel) -> Seq<u8> {
    match op {
        OpModel::Put(k, v) => put_key() + quoted(k) + value_sep() + quoted(v) + close2(),
        OpModel::Delete(k) => del_key() + quoted(k) + close2(),
        OpModel::Clear => clear(),
    }
}

pub open spec fn checksum_bytes(c: Option<Seq<char>>) -> Seq<u8> {
    match c {
        Some(t) => quoted(t),
        None => null(),
    }
}

/// The record of an entry, without the line break.
pub open spec fn record(e: EntryModel) -> Seq<u8> {
    l_seq() + decimal(e.seq as nat) + l_op() + op_bytes(e.op) + l_ts() + quoted(e.timestamp) + l_ck()
        + checksum_bytes(e.checksum) + seq![125u8]
}

/// FNV-1a offset basis and prime, 64-bit.
pub const FNV_OFFSET: u64 = 0xcbf29ce484222325;

pub const FNV_PRIME: u64 = 0x100000001b3;

/// The 64-bit FNV-1a hash of `s`.
pub open spec fn fnv1a(s: Seq<u8>) -> u64
    decreases s.len(),
{
    if s.len() == 0 {
        FNV_OFFSET
    } else {
        vstd::wrapping::u64_specs::wrapping_mul(fnv1a(s.drop_last()) ^ (s.last() as u64), FNV_PRIME)
    }
}

/// The lowercase hexadecimal digits of `n`, without leading zeros.
pub open spec fn hex(n: nat) -> Seq<u8>
    decreases n,
{
    if n < 16 {
        seq![hex_digit(n)]
    } else {
        hex(n / 16).push(hex_digit(n % 16))
    }
}

/// The checksum of an entry: the hexadecimal FNV-1a hash of its record
/// with no checksum, which covers the sequence number, the operation and
/// the timestamp.
pub open spec fn checksum_of(seq: u64, op: OpModel, timestamp: Seq<char>) -> Seq<char> {
    ascii_chars(hex(fnv1a(record(EntryModel { seq, op, timestamp, checksum: None })) as nat))
}

/// The entry carries no checksum, or the one its content gives.
pub open spec fn checksum_holds(e: EntryModel) -> bool {
    match e.checksum {
        None => true,
        Some(c) => c == checksum_of(e.seq, e.op, e.timestamp),
    }
}

proof fn lemma_hex_ascii(n: nat)
    ensures
        all_ascii(hex(n)),
    decreases n,
{
    if n >= 16 {
        lemma_hex_ascii(n / 16);
        assert(forall|i: int| 0 <= i < hex(n).len() - 1 ==> hex(n)[i] == hex(n / 16)[i]);
    }
}

fn hex_digits(n: u64) -> (r: Vec<u8>)
    ensures
        r@ == hex(n as nat),
    decreases n,
{
    if n < 16 {
        let mut v: Vec<u8> = Vec::new();
        v.push(if n < 10 { (48 + n) as u8 } else { (87 + n) as u8 });
        assert(v@ =~= hex(n as nat));
        v
    } else {
        let mut v = hex_digits(n / 16);
        let d = n % 16;
        v.push(if d < 10 { (48 + d) as u8 } else { (87 + d) as u8 });
        v
    }
}

fn fnv1a_hash(s: &[u8]) -> (r: u64)
    ensures
        r == fnv1a(s@),
{
    let mut h: u64 = FNV_OFFSET;
    let mut i: usize = 0;
    while i < s.len()
        invariant
            0 <= i <= s@.len(),
            h == fnv1a(s@.subrange(0, i as int)),
        decreases s@.len() - i,
    {
        assert(s@.subrange(0, i + 1).drop_last() =~= s@.subrange(0, i as int));
        h = (h ^ (s[i] as u64)).wrapping_mul(FNV_PRIME);
        i = i + 1;
    }
    assert(s@.subrange(0, i as int) =~= s@);
    h
}

fn push_all(out: &mut Vec<u8>, s: &[u8])
    ensures
        final(out)@ == old(out)@ + s@,
{
    let mut i: usize = 0;
    while i < s.len()
        invariant
            0 <= i <= s@.len(),
            out@ == old(out)@ + s@.subrange(0, i as int),
        decreases s@.len() - i,
    {
        out.push(s[i]);
        i = i + 1;
        assert(out@ =~= old(out)@ + s@.subrange(0, i as int));
    }
    assert(s@.subrange(0, i as int) =~= s@);
}

proof fn lemma_escape_push(s: Seq<u8>, c: u8)
    ensures
        escape(s.push(c)) == escape(s) + esc(c),
    decreases s.len(),
{
    if s.len() == 0 {
        assert(s.push(c).drop_first() =~= Seq::<u8>::empty());
        assert(s.push(c)[0] == c);
        assert(escape(Seq::<u8>::empty()) == Seq::<u8>::empty());
        assert(escape(s) == Seq::<u8>::empty());
        assert(escape(s.push(c)) == esc(c) + escape(Seq::<u8>::empty()));
        assert(escape(s.push(c)) =~= escape(s) + esc(c));
    } else {
        lemma_escape_push(s.drop_first(), c);
        assert(s.push(c).drop_first() =~= s.drop_first().push(c));
        assert(escape(s.push(c)) =~= esc(s[0]) + (escape(s.drop_first()) + esc(c)));
    }
}

fn push_escaped_byte(out: &mut Vec<u8>, c: u8)
    ensures
        final(out)@ == old(out)@ + esc(c),
{
    if c == 34 || c == 92 {
        out.push(92);
        out.push(c);
        assert(out@ =~= old(out)@ + esc(c));
    } else if c < 32 {
        out.push(92);
        out.push(117);
        out.push(48);
        out.push(48);
        out.push(if c / 16 == 0 { 48u8 } else { 49u8 });
        let d = c % 16;
        out.push(if d < 10 { 48 + d } else { 87 + d });
        assert(out@ =~= old(out)@ + esc(c));
    } else {
        out.push(c);
        assert(out@ =~= old(out)@ + esc(c));
    }
}

fn push_quoted(out: &mut Vec<u8>, s: &str)
    ensures
        final(out)@ == old(out)@ + quoted(s@),
{
    let b = s.as_bytes();
    out.push(34);
    let ghost start = out@;
    let mut i: usize = 0;
    while i < b.len()
        invariant
            0 <= i <= b@.len(),
            out@ == start + escape(b@.subrange(0, i as int)),
        decreases b@.len() - i,
    {
        proof {
            lemma_escape_push(b@.subrange(0, i as int), b@[i as int]);
            assert(b@.subrange(0, i + 1) =~= b@.subrange(0, i as int).push(b@[i as int]));
        }
        push_escaped_byte(out, b[i]);
        i = i + 1;
        assert(out@ =~= start + escape(b@.subrange(0, i as int)));
    }
    assert(b@.subrange(0, i as int) =~= b@);
    out.push(34);
    assert(out@ =~= old(out)@ + quoted(s@));
}

fn push_operation(out: &mut Vec<u8>, op: &WalOperation)
    ensures
        final(out)@ == old(out)@ + op_bytes(op@),
{
    match op {
        WalOperation::Put { key, value } => {
            push_all(out, vstd::array::array_as_slice(&PUT_KEY));
            push_quoted(out, key.as_str());
            push_all(out, vstd::array::array_as_slice(&VALUE_SEP));
            push_quoted(out, value.as_str());
            push_all(out, vstd::array::array_as_slice(&CLOSE2));
            assert(PUT_KEY@ =~= put_key() && VALUE_SEP@ =~= value_sep() && CLOSE2@ =~= close2());
            assert(out@ =~= old(out)@ + op_bytes(op@));
        },
        WalOperation::Delete { key } => {
            push_all(out, vstd::array::array_as_slice(&DEL_KEY));
            push_quoted(out, key.as_str());
            push_all(out, vstd::array::array_as_slice(&CLOSE2));
            assert(DEL_KEY@ =~= del_key() && CLOSE2@ =~= close2());
            assert(out@ =~= old(out)@ + op_bytes(op@));
        },
        WalOperation::Clear => {
            push_all(out, vstd::array::array_as_slice(&CLEAR));
            assert(CLEAR@ =~= clear());
        },
    }
}

fn record_bytes(seq: u64, op: &WalOperation, timestamp: &String, checksum: &Option<String>) -> (r: Vec<u8>)
    ensures
        r@ == record(
            EntryModel {
                seq,
                op: op@,
                timestamp: timestamp@,
                checksum: match checksum {
                    Some(c) => Some(c@),
                    None => None,
                },
            },
        ),
{
    let mut out: Vec<u8> = Vec::new();
    push_all(&mut out, vstd::array::array_as_slice(&L_SEQ));
    let digits = decimal_digits(seq);
    push_all(&mut out, digits.as_slice());
    push_all(&mut out, vstd::array::array_as_slice(&L_OP));
    push_operation(&mut out, op);
    push_all(&mut out, vstd::array::array_as_slice(&L_TS));
    push_quoted(&mut out, timestamp.as_str());
    push_all(&mut out, vstd::array::array_as_slice(&L_CK));
    match checksum {
        Some(c) => push_quoted(&mut out, c.as_str()),
        None => push_all(&mut out, vstd::array::array_as_slice(&NULL)),
    }
    out.push(125);
    assert(L_SEQ@ =~= l_seq() && L_OP@ =~= l_op() && L_TS@ =~= l_ts() && L_CK@ =~= l_ck() && NULL@ =~= null());
    assert(out@ =~= record(
        EntryModel {
            seq,
            op: op@,
            timestamp: timestamp@,
            checksum: match checksum {
                Some(c) => Some(c@),
                None => None,
            },
        },
    ));
    out
}

impl WalOperation {
    /// A copy of the operation.
    pub fn duplicate(&self) -> (r: WalOperation)
        ensures
            r == *self,
    {
        match self {
            WalOperation::Put { key, value } => WalOperation::Put { key: key.clone(), value: value.clone() },
            WalOperation::Delete { key } => WalOperation::Delete { key: key.clone() },
            WalOperation::Clear => WalOperation::Clear,
        }
    }
}

impl WalEntry {
    /// An entry without checksum, stamped with the current time.
    pub fn new(sequence_number: u64, operation: WalOperation) -> (r: WalEntry)
        ensures
            r.sequence_number == sequence_number,
            r.operation == operation,
            r.checksum is None,
            crate::engine::clock_text(r.timestamp@),
    {
        Self::new_at(sequence_number, operation, crate::engine::current_timestamp())
    }

    /// An entry without checksum, stamped with `timestamp`.
    pub fn new_at(sequence_number: u64, operation: WalOperation, timestamp: String) -> (r: WalEntry)
        ensures
            r == (WalEntry { sequence_number, operation, timestamp, checksum: None }),
    {
        WalEntry { sequence_number, operation, timestamp, checksum: None }
    }

    /// An entry with its checksum, stamped with the current time.
    pub fn new_with_checksum(sequence_number: u64, operation: WalOperation) -> (r: WalEntry)
        ensures
            r.sequence_number == sequence_number,
            r.operation == operation,
            r.checksum is Some,
            checksum_holds(r@),
            crate::engine::clock_text(r.timestamp@),
    {
        Self::new_with_checksum_at(sequence_number, operation, crate::engine::current_timestamp())
    }

    /// An entry with its checksum, stamped with `timestamp`.
    pub fn new_with_checksum_at(sequence_number: u64, operation: WalOperation, timestamp: String) -> (r: WalEntry)
        ensures
            r.sequence_number == sequence_number,
            r.operation == operation,
            r.timestamp == timestamp,
            r.checksum matches Some(c) && c@ == checksum_of(sequence_number, operation@, timestamp@),
            checksum_holds(r@),
    {
        let mut entry = Self::new_at(sequence_number, operation, timestamp);
        let c = entry.calculate_checksum();
        entry.checksum = Some(c);
        entry
    }

    /// The checksum that the entry's content gives.
    fn calculate_checksum(&self) -> (r: String)
        ensures
            r@ == checksum_of(self.sequence_number, self.operation@, self.timestamp@),
    {
        let bytes = record_bytes(self.sequence_number, &self.operation, &self.timestamp, &None);
        let h = fnv1a_hash(bytes.as_slice());
        proof {
            lemma_hex_ascii(h as nat);
        }
        ascii_string(hex_digits(h))
    }

    /// Whether the entry has no checksum or the one its content gives.
    pub fn verify_checksum(&self) -> (r: bool)
        ensures
            r == checksum_holds(self@),
    {
        match &self.checksum {
            Some(stored) => {
                let calculated = self.calculate_checksum();
                *stored == calculated
            },
            None => true,
        }
    }

    /// The entry's record, without the line break.
    pub fn to_record(&self) -> (r: Vec<u8>)
        ensures
            r@ == record(self@),
            no_newline(r@),
    {
        proof {
            lemma_record_no_newline(self@);
        }
        record_bytes(self.sequence_number, &self.operation, &self.timestamp, &self.checksum)
    }
}

/// `lit` stands in `b` at position `p`.
pub open spec fn lit_at(b: Seq<u8>, p: int, lit: Seq<u8>) -> bool {
    0 <= p && p + lit.len() <= b.len() && b.subrange(p, p + lit.len()) == lit
}

pub open spec fn hex_value(c: u8) -> Option<nat> {
    if 48 <= c <= 57 {
        Some((c - 48) as nat)
    } else if 97 <= c <= 102 {
        Some((c - 87) as nat)
    } else if 65 <= c <= 70 {
        Some((c - 55) as nat)
    } else {
        None
    }
}

/// The byte that a one-letter escape `\d` stands for: `"`, `\`, `/`, and
/// the control characters `\n`, `\t`, `\r`, `\b`, `\f`.
pub open spec fn short_escape(d: u8) -> Option<u8> {
    if d == 34 || d == 92 || d == 47 {
        Some(d)
    } else if d == 110 {
        Some(10u8)
    } else if d == 116 {
        Some(9u8)
    } else if d == 114 {
        Some(13u8)
    } else if d == 98 {
        Some(8u8)
    } else if d == 102 {
        Some(12u8)
    } else {
        None
    }
}

/// Reads one escaped byte at `j`, other than the closing quote: the byte and
/// the position after it.
pub open spec fn unescape_step(b: Seq<u8>, j: int) -> Option<(u8, int)> {
    if j < 0 || j >= b.len() {
        None
    } else if b[j] == 92 {
        if j + 1 >= b.len() {
            None
        } else if short_escape(b[j + 1]) is Some {
            Some((short_escape(b[j + 1])->0, j + 2))
        } else if b[j + 1] == 117 && j + 5 < b.len() && b[j + 2] == 48 && b[j + 3] == 48 && hex_value(
            b[j + 4],
        ) is Some && hex_value(b[j + 4])->0 < 8 && hex_value(b[j + 5]) is Some {
            Some(((hex_value(b[j + 4])->0 * 16 + hex_value(b[j + 5])->0) as u8, j + 6))
        } else {
            None
        }
    } else if b[j] == 34 || b[j] < 32 {
        None
    } else {
        Some((b[j], j + 1))
    }
}

/// Reads the rest of a quoted string from `j`, after the bytes `acc`: its
/// bytes and the position after the closing quote.
pub open spec fn unescape_from(b: Seq<u8>, j: int, acc: Seq<u8>) -> Option<(Seq<u8>, int)>
    decreases b.len() - j,
{
    if j < 0 || j >= b.len() {
        None
    } else if b[j] == 34 {
        Some((acc, j + 1))
    } else {
        match unescape_step(b, j) {
            None => None,
            Some((c, k)) => if k > j {
                unescape_from(b, k, acc.push(c))
            } else {
                None
            },
        }
    }
}

/// Reads a quoted string at `p`.
pub open spec fn quoted_at(b: Seq<u8>, p: int) -> Option<(Seq<u8>, int)> {
    if 0 <= p < b.len() && b[p] == 34 {
        unescape_from(b, p + 1, Seq::empty())
    } else {
        None
    }
}

/// Reads the digits from `j` on, after a value of `acc`.
pub open spec fn number_from(b: Seq<u8>, j: int, acc: nat) -> Option<(u64, int)>
    decreases b.len() - j,
{
    if 0 <= j < b.len() && is_digit(b[j]) {
        let a = acc * 10 + (b[j] - 48) as nat;
        if a > u64::MAX {
            None
        } else {
            number_from(b, j + 1, a)
        }
    } else {
        Some((acc as u64, j))
    }
}

/// Reads a decimal `u64` at `p`.
pub open spec fn number_at(b: Seq<u8>, p: int) -> Option<(u64, int)> {
    if 0 <= p < b.len() && is_digit(b[p]) && !(b[p] == 48 && p + 1 < b.len() && is_digit(b[p + 1])) {
        number_from(b, p, 0)
    } else {
        None
    }
}

pub open spec fn parse_op(b: Seq<u8>, p: int) -> Option<(OpModel, int)> {
    if lit_at(b, p, clear()) {
        Some((OpModel::Clear, p + clear().len()))
    } else if lit_at(b, p, put_key()) {
        match quoted_at(b, p + put_key().len()) {
            None => None,
            Some((k, q)) => if !lit_at(b, q, value_sep()) {
                None
            } else {
                match quoted_at(b, q + value_sep().len()) {
                    None => None,
                    Some((v, q2)) => if lit_at(b, q2, close2()) && valid_utf8(k) && valid_utf8(v) {
                        Some((OpModel::Put(decode_utf8(k), decode_utf8(v)), q2 + close2().len()))
                    } else {
                        None
                    },
                }
            },
        }
    } else if lit_at(b, p, del_key()) {
        match quoted_at(b, p + del_key().len()) {
            None => None,
            Some((k, q)) => if lit_at(b, q, close2()) && valid_utf8(k) {
                Some((OpModel::Delete(decode_utf8(k)), q + close2().len()))
            } else {
                None
            },
        }
    } else {
        None
    }
}

pub open spec fn parse_checksum(b: Seq<u8>, p: int) -> Option<(Option<Seq<char>>, int)> {
    if lit_at(b, p, null()) {
        Some((None, p + null().len()))
    } else {
        match quoted_at(b, p) {
            None => None,
            Some((c, q)) => if valid_utf8(c) {
                Some((Some(decode_utf8(c)), q))
            } else {
                None
            },
        }
    }
}

/// Reads a whole record.
#[verifier::opaque]
pub open spec fn parse_record(b: Seq<u8>) -> Option<EntryModel> {
    if !lit_at(b, 0, l_seq()) {
        None
    } else {
        match number_at(b, l_seq().len() as int) {
            None => None,
            Some((n, at1)) => if !lit_at(b, at1, l_op()) {
                None
            } else {
                match parse_op(b, at1 + l_op().len()) {
                    None => None,
                    Some((op, at2)) => if !lit_at(b, at2, l_ts()) {
                        None
                    } else {
                        match quoted_at(b, at2 + l_ts().len()) {
                            None => None,
                            Some((ts, at3)) => if !lit_at(b, at3, l_ck()) || !valid_utf8(ts) {
                                None
                            } else {
                                match parse_checksum(b, at3 + l_ck().len()) {
                                    None => None,
                                    Some((c, at4)) => if at4 + 1 == b.len() && b[at4] == 125 {
                                        Some(
                                            EntryModel {
                                                seq: n,
                                                op,
                                                timestamp: decode_utf8(ts),
                                                checksum: c,
                                            },
                                        )
                                    } else {
                                        None
                                    },
                                }
                            },
                        }
                    },
                }
            },
        }
    }
}

fn lit_at_exec(b: &[u8], p: usize, lit: &[u8]) -> (r: bool)
    ensures
        r == lit_at(b@, p as int, lit@),
{
    let n = b.len();
    if p > n || lit.len() > n - p {
        return false;
    }
    let mut i: usize = 0;
    while i < lit.len()
        invariant
            b@.len() == n,
            p + lit@.len() <= b@.len(),
            0 <= i <= lit@.len(),
            forall|k: int| 0 <= k < i ==> b@[p + k] == lit@[k],
        decreases lit@.len() - i,
    {
        if b[p + i] != lit[i] {
            assert(b@.subrange(p as int, p + lit@.len())[i as int] != lit@[i as int]);
            return false;
        }
        i = i + 1;
    }
    assert(b@.subrange(p as int, p + lit@.len()) =~= lit@);
    true
}

fn number_at_exec(b: &[u8], p: usize) -> (r: Option<(u64, usize)>)
    ensures
        r is None ==> number_at(b@, p as int) is None,
        r matches Some((n, q)) ==> number_at(b@, p as int) == Some((n, q as int)) && q <= b@.len(),
{
    if p >= b.len() || b[p] < 48 || b[p] > 57 {
        return None;
    }
    if b[p] == 48 && b.len() - p > 1 && 48 <= b[p + 1] && b[p + 1] <= 57 {
        return None;
    }
    let mut acc: u64 = 0;
    let mut j: usize = p;
    while j < b.len() && 48 <= b[j] && b[j] <= 57
        invariant
            p <= j <= b@.len(),
            number_at(b@, p as int) == number_from(b@, j as int, acc as nat),
        decreases b@.len() - j,
    {
        let a: u128 = acc as u128 * 10 + (b[j] - 48) as u128;
        if a > u64::MAX as u128 {
            return None;
        }
        acc = a as u64;
        j = j + 1;
    }
    Some((acc, j))
}

fn hex_value_exec(c: u8) -> (r: Option<u8>)
    ensures
        r is None <==> hex_value(c) is None,
        r matches Some(v) ==> v as nat == hex_value(c)->0 && v < 16,
{
    if 48 <= c && c <= 57 {
        Some(c - 48)
    } else if 97 <= c && c <= 102 {
        Some(c - 87)
    } else if 65 <= c && c <= 70 {
        Some(c - 55)
    } else {
        None
    }
}

fn short_escape_exec(d: u8) -> (r: Option<u8>)
    ensures
        r == short_escape(d),
{
    if d == 34 || d == 92 || d == 47 {
        Some(d)
    } else if d == 110 {
        Some(10)
    } else if d == 116 {
        Some(9)
    } else if d == 114 {
        Some(13)
    } else if d == 98 {
        Some(8)
    } else if d == 102 {
        Some(12)
    } else {
        None
    }
}

fn quoted_at_exec(b: &[u8], p: usize) -> (r: Option<(Vec<u8>, usize)>)
    ensures
        r is None ==> quoted_at(b@, p as int) is None,
        r matches Some((v, q)) ==> quoted_at(b@, p as int) == Some((v@, q as int)) && q <= b@.len(),
{
    let n = b.len();
    if p >= n || b[p] != 34 {
        return None;
    }
    let mut out: Vec<u8> = Vec::new();
    let mut j: usize = p + 1;
    while j < b.len()
        invariant
            b@.len() == n,
            p + 1 <= j <= b@.len(),
            quoted_at(b@, p as int) == unescape_from(b@, j as int, out@),
        decreases b@.len() - j,
    {
        let c = b[j];
        if c == 34 {
            return Some((out, j + 1));
        }
        if c == 92 {
            if j + 1 >= b.len() {
                return None;
            }
            let d = b[j + 1];
            if let Some(x) = short_escape_exec(d) {
                out.push(x);
                j = j + 2;
            } else if d == 117 && b.len() - j > 5 && b[j + 2] == 48 && b[j + 3] == 48 {
                let high = match hex_value_exec(b[j + 4]) {
                    Some(v) => v,
                    None => return None,
                };
                if high >= 8 {
                    return None;
                }
                let low = match hex_value_exec(b[j + 5]) {
                    Some(v) => v,
                    None => return None,
                };
                out.push(high * 16 + low);
                j = j + 6;
            } else {
                return None;
            }
        } else if c < 32 {
            return None;
        } else {
            out.push(c);
            j = j + 1;
        }
    }
    None
}

fn text_from(v: Vec<u8>) -> (r: Option<String>)
    ensures
        r is Some <==> valid_utf8(v@),
        r matches Some(s) ==> s@ == decode_utf8(v@),
{
    string_from_utf8(v)
}

fn parse_op_exec(b: &[u8], p: usize) -> (r: Option<(WalOperation, usize)>)
    ensures
        r is None ==> parse_op(b@, p as int) is None,
        r matches Some((op, q)) ==> parse_op(b@, p as int) == Some((op@, q as int)) && q <= b@.len(),
{
    let n = b.len();
    assert(CLEAR@ =~= clear() && PUT_KEY@ =~= put_key() && DEL_KEY@ =~= del_key() && VALUE_SEP@
        =~= value_sep() && CLOSE2@ =~= close2());
    if lit_at_exec(b, p, vstd::array::array_as_slice(&CLEAR)) {
        return Some((WalOperation::Clear, p + 7));
    }
    if lit_at_exec(b, p, vstd::array::array_as_slice(&PUT_KEY)) {
        let (k, q) = quoted_at_exec(b, p + 14)?;
        if !lit_at_exec(b, q, vstd::array::array_as_slice(&VALUE_SEP)) {
            return None;
        }
        let (v, q2) = quoted_at_exec(b, q + 9)?;
        if !lit_at_exec(b, q2, vstd::array::array_as_slice(&CLOSE2)) {
            return None;
        }
        let key = text_from(k)?;
        let value = text_from(v)?;
        return Some((WalOperation::Put { key, value }, q2 + 2));
    }
    if lit_at_exec(b, p, vstd::array::array_as_slice(&DEL_KEY)) {
        let (k, q) = quoted_at_exec(b, p + 17)?;
        if !lit_at_exec(b, q, vstd::array::array_as_slice(&CLOSE2)) {
            return None;
        }
        let key = text_from(k)?;
        return Some((WalOperation::Delete { key }, q + 2));
    }
    None
}

fn parse_entry(b: &[u8]) -> (r: Option<WalEntry>)
    ensures
        r is None ==> parse_record(b@) is None,
        r matches Some(e) ==> parse_record(b@) == Some(e@),
{
    let n = b.len();
    reveal(parse_record);
    assert(L_SEQ@ =~= l_seq() && L_OP@ =~= l_op() && L_TS@ =~= l_ts() && L_CK@ =~= l_ck() && NULL@
        =~= null());
    if !lit_at_exec(b, 0, vstd::array::array_as_slice(&L_SEQ)) {
        return None;
    }
    let (n, at1) = number_at_exec(b, 19)?;
    if !lit_at_exec(b, at1, vstd::array::array_as_slice(&L_OP)) {
        return None;
    }
    let (operation, at2) = parse_op_exec(b, at1 + 13)?;
    if !lit_at_exec(b, at2, vstd::array::array_as_slice(&L_TS)) {
        return None;
    }
    let (ts, at3) = quoted_at_exec(b, at2 + 13)?;
    if !lit_at_exec(b, at3, vstd::array::array_as_slice(&L_CK)) {
        return None;
    }
    let timestamp = text_from(ts)?;
    let at4 = at3 + 12;
    let (checksum, at5) = if lit_at_exec(b, at4, vstd::array::array_as_slice(&NULL)) {
        (None, at4 + 4)
    } else {
        let (c, q) = quoted_at_exec(b, at4)?;
        let c = text_from(c)?;
        (Some(c), q)
    };
    if at5 >= b.len() || at5 + 1 != b.len() || b[at5] != 125 {
        return None;
    }
    Some(WalEntry { sequence_number: n, operation, timestamp, checksum })
}

impl WalEntry {
    /// The entry's record as text.
    pub fn to_json(&self) -> (r: StorageResult<String>)
        ensures
            r is Ok,
            r matches Ok(s) ==> s@ == decode_utf8(record(self@)) && encode_utf8(s@) == record(self@),
    {
        proof {
            lemma_record_valid_utf8(self@);
            vstd::utf8::decode_utf8_encode_utf8(record(self@));
        }
        match string_from_utf8(self.to_record()) {
            Some(s) => Ok(s),
            None => Err(StorageError::Internal(owned("Failed to serialize WAL entry"))),
        }
    }

    /// Reads an entry from its record as text.
    pub fn from_json(json: &str) -> (r: StorageResult<WalEntry>)
        ensures
            r is Ok <==> parse_record(encode_utf8(json@)) is Some,
            r matches Ok(e) ==> parse_record(encode_utf8(json@)) == Some(e@),
            r matches Err(e) ==> e is Internal,
    {
        Self::from_record(json.as_bytes())
    }

    /// Reads an entry from its record. Beyond the layout that
    /// [`WalEntry::to_record`] writes, strings may use the standard JSON
    /// escapes `\"`, `\\`, `\/`, `\n`, `\t`, `\r`, `\b`, `\f`, and `\u00XX`
    /// for ASCII, in either case. Fails with an internal error on anything
    /// else.
    pub fn from_record(b: &[u8]) -> (r: StorageResult<WalEntry>)
        ensures
            r is Ok <==> parse_record(b@) is Some,
            r matches Ok(e) ==> parse_record(b@) == Some(e@),
            r matches Err(e) ==> e is Internal,
    {
        match parse_entry(b) {
            None => Err(StorageError::Internal(owned("Failed to deserialize WAL entry"))),
            Some(e) => Ok(e),
        }
    }
}

proof fn lemma_sub_lit(b: Seq<u8>, p: int, whole: Seq<u8>, a: int, piece: Seq<u8>)
    requires
        lit_at(b, p, whole),
        0 <= a,
        a + piece.len() <= whole.len(),
        whole.subrange(a, a + piece.len()) == piece,
    ensures
        lit_at(b, p + a, piece),
{
    assert forall|k: int| 0 <= k < piece.len() implies b[p + a + k] == piece[k] by {
        assert(b.subrange(p, p + whole.len())[a + k] == whole[a + k]);
        assert(whole.subrange(a, a + piece.len())[k] == whole[a + k]);
    }
    assert(b.subrange(p + a, p + a + piece.len()) =~= piece);
}

proof fn lemma_byte_at(b: Seq<u8>, p: int, whole: Seq<u8>, k: int)
    requires
        lit_at(b, p, whole),
        0 <= k < whole.len(),
    ensures
        b[p + k] == whole[k],
{
    assert(b.subrange(p, p + whole.len())[k] == whole[k]);
}

proof fn lemma_unescape(b: Seq<u8>, j: int, acc: Seq<u8>, s: Seq<u8>)
    requires
        lit_at(b, j, escape(s).push(34u8)),
    ensures
        unescape_from(b, j, acc) == Some((acc + s, j + escape(s).len() + 1)),
    decreases s.len(),
{
    let e = escape(s);
    let w = e.push(34u8);
    lemma_byte_at(b, j, w, e.len() as int);
    if s.len() == 0 {
        assert(e.len() == 0);
        assert(acc + s =~= acc);
    } else {
        let c = s[0];
        let x = esc(c);
        let rest = s.drop_first();
        assert(e == x + escape(rest));
        assert forall|k: int| 0 <= k < x.len() implies b[j + k] == x[k] by {
            lemma_byte_at(b, j, w, k);
            assert(w[k] == x[k]);
        }
        lemma_byte_at(b, j, w, 0);
        assert(w[0] == x[0]);
        if c == 34 || c == 92 {
            assert(b[j] == 92 && b[j + 1] == c);
        } else if c < 32 {
            assert(b[j] == 92 && b[j + 1] == 117 && b[j + 2] == 48 && b[j + 3] == 48);
            assert(b[j + 4] == hex_digit(c as nat / 16));
            assert(b[j + 5] == hex_digit(c as nat % 16));
            assert(c as nat / 16 <= 1);
            assert(hex_value(b[j + 5]) == Some(c as nat % 16));
            assert(((b[j + 4] - 48) * 16 + (c as nat % 16)) as u8 == c);
        } else {
            assert(b[j] == c);
        }
        assert(unescape_step(b, j) == Some((c, j + x.len())));
        assert(w.subrange(x.len() as int, (x.len() + escape(rest).len() + 1) as int) =~= escape(rest).push(34u8));
        lemma_sub_lit(b, j, w, x.len() as int, escape(rest).push(34u8));
        lemma_unescape(b, j + x.len(), acc.push(c), rest);
        assert(acc.push(c) + rest =~= acc + s);
    }
}

proof fn lemma_quoted(b: Seq<u8>, p: int, s: Seq<char>)
    requires
        lit_at(b, p, quoted(s)),
    ensures
        quoted_at(b, p) == Some((encode_utf8(s), p + quoted(s).len())),
{
    let u = encode_utf8(s);
    let q = quoted(s);
    lemma_byte_at(b, p, q, 0);
    assert(q.subrange(1, 1 + escape(u).len() as int + 1) =~= escape(u).push(34u8));
    lemma_sub_lit(b, p, q, 1, escape(u).push(34u8));
    lemma_unescape(b, p + 1, Seq::empty(), u);
    assert(Seq::<u8>::empty() + u =~= u);
}

proof fn lemma_number_prefix(b: Seq<u8>, p: int, u: Seq<u8>)
    requires
        lit_at(b, p, u),
        crate::text::all_digits(u),
        digits_value(u) <= u64::MAX,
    ensures
        number_from(b, p, 0) == number_from(b, p + u.len(), digits_value(u)),
    decreases u.len(),
{
    if u.len() > 0 {
        let u2 = u.drop_last();
        assert(u.subrange(0, u2.len() as int) =~= u2);
        lemma_sub_lit(b, p, u, 0, u2);
        assert(crate::text::all_digits(u2)) by {
            assert forall|i: int| 0 <= i < u2.len() implies is_digit(#[trigger] u2[i]) by {
                assert(u2[i] == u[i]);
            }
        }
        lemma_number_prefix(b, p, u2);
        lemma_byte_at(b, p, u, u2.len() as int);
        assert(is_digit(u[u2.len() as int]));
    }
}

proof fn lemma_number(b: Seq<u8>, p: int, n: u64)
    requires
        lit_at(b, p, decimal(n as nat)),
        p + decimal(n as nat).len() < b.len(),
        !is_digit(b[p + decimal(n as nat).len()]),
    ensures
        number_at(b, p) == Some((n, p + decimal(n as nat).len())),
{
    lemma_decimal_digits(n as nat);
    lemma_byte_at(b, p, decimal(n as nat), 0);
    lemma_number_prefix(b, p, decimal(n as nat));
}

proof fn lemma_text(s: Seq<char>)
    ensures
        valid_utf8(encode_utf8(s)),
        decode_utf8(encode_utf8(s)) == s,
{
    vstd::utf8::encode_utf8_valid_utf8(s);
    vstd::utf8::encode_utf8_decode_utf8(s);
}

proof fn lemma_parse_op(b: Seq<u8>, p: int, op: OpModel)
    requires
        lit_at(b, p, op_bytes(op)),
    ensures
        parse_op(b, p) == Some((op, p + op_bytes(op).len())),
{
    let w = op_bytes(op);
    match op {
        OpModel::Clear => {},
        OpModel::Put(k, v) => {
            let qk = quoted(k);
            let qv = quoted(v);
            let a1 = put_key().len() as int;
            let a2 = a1 + qk.len();
            let a3 = a2 + value_sep().len();
            let a4 = a3 + qv.len();
            assert(w.subrange(0, a1) =~= put_key());
            assert(w.subrange(a1, a2) =~= qk);
            assert(w.subrange(a2, a3) =~= value_sep());
            assert(w.subrange(a3, a4) =~= qv);
            assert(w.subrange(a4, a4 + 2) =~= close2());
            lemma_sub_lit(b, p, w, 0, put_key());
            lemma_sub_lit(b, p, w, a1, qk);
            lemma_sub_lit(b, p, w, a2, value_sep());
            lemma_sub_lit(b, p, w, a3, qv);
            lemma_sub_lit(b, p, w, a4, close2());
            lemma_byte_at(b, p, w, 0);
            lemma_quoted(b, p + a1, k);
            lemma_quoted(b, p + a3, v);
            lemma_text(k);
            lemma_text(v);
            assert(!lit_at(b, p, clear())) by {
                if lit_at(b, p, clear()) {
                    lemma_byte_at(b, p, clear(), 0);
                }
            }
        },
        OpModel::Delete(k) => {
            let qk = quoted(k);
            let a1 = del_key().len() as int;
            let a2 = a1 + qk.len();
            assert(w.subrange(0, a1) =~= del_key());
            assert(w.subrange(a1, a2) =~= qk);
            assert(w.subrange(a2, a2 + 2) =~= close2());
            lemma_sub_lit(b, p, w, 0, del_key());
            lemma_sub_lit(b, p, w, a1, qk);
            lemma_sub_lit(b, p, w, a2, close2());
            lemma_byte_at(b, p, w, 0);
            lemma_byte_at(b, p, w, 2);
            lemma_quoted(b, p + a1, k);
            lemma_text(k);
            assert(!lit_at(b, p, clear())) by {
                if lit_at(b, p, clear()) {
                    lemma_byte_at(b, p, clear(), 0);
                }
            }
            assert(!lit_at(b, p, put_key())) by {
                if lit_at(b, p, put_key()) {
                    lemma_byte_at(b, p, put_key(), 2);
                }
            }
        },
    }
}

proof fn lemma_last_piece(b: Seq<u8>, a: Seq<u8>, x: Seq<u8>)
    requires
        b.len() >= a.len() + x.len(),
        b.subrange(0, (a.len() + x.len()) as int) == a + x,
    ensures
        lit_at(b, a.len() as int, x),
        b.subrange(0, a.len() as int) == a,
{
    let n = (a.len() + x.len()) as int;
    assert forall|k: int| 0 <= k < x.len() implies b[a.len() + k] == x[k] by {
        assert(b.subrange(0, n)[a.len() + k] == b[a.len() + k]);
        assert((a + x)[a.len() + k] == x[k]);
    }
    assert(b.subrange(a.len() as int, (a.len() + x.len()) as int) =~= x);
    assert forall|k: int| 0 <= k < a.len() implies b[k] == a[k] by {
        assert(b.subrange(0, n)[k] == b[k]);
        assert((a + x)[k] == a[k]);
    }
    assert(b.subrange(0, a.len() as int) =~= a);
}

/// Reading back the record of an entry gives the same entry.
#[verifier::rlimit(60)]
pub proof fn lemma_record_round_trip(m: EntryModel)
    ensures
        parse_record(record(m)) == Some(m),
{
    reveal(parse_record);
    let b = record(m);
    let d = decimal(m.seq as nat);
    let ob = op_bytes(m.op);
    let qt = quoted(m.timestamp);
    let cb = checksum_bytes(m.checksum);
    let s1 = l_seq();
    let s2 = s1 + d;
    let s3 = s2 + l_op();
    let s4 = s3 + ob;
    let s5 = s4 + l_ts();
    let s6 = s5 + qt;
    let s7 = s6 + l_ck();
    let s8 = s7 + cb;
    assert(b == s8 + seq![125u8]);
    assert(b.subrange(0, b.len() as int) =~= b);
    lemma_last_piece(b, s8, seq![125u8]);
    lemma_last_piece(b, s7, cb);
    lemma_last_piece(b, s6, l_ck());
    lemma_last_piece(b, s5, qt);
    lemma_last_piece(b, s4, l_ts());
    lemma_last_piece(b, s3, ob);
    lemma_last_piece(b, s2, l_op());
    lemma_last_piece(b, s1, d);
    assert(s1 =~= Seq::<u8>::empty() + l_seq());
    lemma_last_piece(b, Seq::<u8>::empty(), l_seq());
    lemma_byte_at(b, s8.len() as int, seq![125u8], 0);
    lemma_byte_at(b, s2.len() as int, l_op(), 0);
    lemma_number(b, s1.len() as int, m.seq);
    lemma_parse_op(b, s3.len() as int, m.op);
    lemma_quoted(b, s5.len() as int, m.timestamp);
    lemma_text(m.timestamp);
    match m.checksum {
        None => {},
        Some(c) => {
            lemma_quoted(b, s7.len() as int, c);
            lemma_text(c);
            lemma_byte_at(b, s7.len() as int, cb, 0);
            assert(!lit_at(b, s7.len() as int, null())) by {
                if lit_at(b, s7.len() as int, null()) {
                    lemma_byte_at(b, s7.len() as int, null(), 0);
                }
            }
        },
    }
}

/// Writing an entry and reading it back gives the same entry; the record
/// is valid UTF-8 text on a single line; and an entry that carries the
/// checksum of its content passes the check.
pub proof fn lemma_wal_round_trip(m: EntryModel)
    ensures
        parse_record(record(m)) == Some(m),
        valid_utf8(record(m)),
        no_newline(record(m)),
        checksum_holds(
            EntryModel { checksum: Some(checksum_of(m.seq, m.op, m.timestamp)), ..m },
        ),
{
    lemma_record_round_trip(m);
    lemma_record_valid_utf8(m);
    lemma_record_no_newline(m);
}

proof fn lemma_escape_concat(a: Seq<u8>, b: Seq<u8>)
    ensures
        escape(a + b) == escape(a) + escape(b),
    decreases a.len(),
{
    if a.len() == 0 {
        assert(a + b =~= b);
        assert(escape(a) + escape(b) =~= escape(b));
    } else {
        lemma_escape_concat(a.drop_first(), b);
        assert((a + b).drop_first() =~= a.drop_first() + b);
        assert((a + b)[0] == a[0]);
        assert(escape(a + b) =~= escape(a) + escape(b));
    }
}

proof fn lemma_escape_high(s: Seq<u8>)
    requires
        forall|i: int| 0 <= i < s.len() ==> #[trigger] s[i] >= 128,
    ensures
        escape(s) == s,
    decreases s.len(),
{
    if s.len() > 0 {
        lemma_escape_high(s.drop_first());
        assert(esc(s[0]) == seq![s[0]]);
        assert(escape(s) =~= s);
    }
}

proof fn lemma_escape_char_valid(c: char)
    ensures
        valid_utf8(escape(encode_utf8(seq![c]))),
{
    let v = c as u32;
    let e = encode_utf8(seq![c]);
    vstd::utf8::char_is_scalar(c);
    assert(seq![c].drop_first() =~= Seq::<char>::empty());
    assert(e == vstd::utf8::encode_scalar(v) + encode_utf8(Seq::<char>::empty()));
    assert(e =~= vstd::utf8::encode_scalar(v));
    if v <= 0x7F {
        let byte = (v & 0x7F) as u8;
        assert(byte < 128) by (bit_vector)
            requires
                byte == (v & 0x7F) as u8,
        ;
        assert(e == seq![byte]);
        assert(e.drop_first() =~= Seq::<u8>::empty());
        assert(e[0] == byte);
        assert(escape(Seq::<u8>::empty()) == Seq::<u8>::empty());
        assert(escape(e) == esc(byte) + escape(Seq::<u8>::empty()));
        assert(escape(e) =~= esc(byte));
        assert(all_ascii(esc(byte)));
        lemma_ascii_utf8(esc(byte));
    } else {
        assert(forall|y: u8| #![auto] (0x80u8 | y) >= 128 && (0xC0u8 | y) >= 128 && (0xE0u8 | y) >= 128 && (
        0xF0u8 | y) >= 128) by (bit_vector);
        assert forall|i: int| 0 <= i < e.len() implies #[trigger] e[i] >= 128 by {}
        lemma_escape_high(e);
        vstd::utf8::encode_utf8_valid_utf8(seq![c]);
    }
}

proof fn lemma_escape_valid(chars: Seq<char>)
    ensures
        valid_utf8(escape(encode_utf8(chars))),
    decreases chars.len(),
{
    if chars.len() == 0 {
        assert(escape(encode_utf8(chars)) =~= Seq::<u8>::empty());
    } else {
        let first = encode_utf8(seq![chars[0]]);
        assert(seq![chars[0]].drop_first() =~= Seq::<char>::empty());
        assert(seq![chars[0]][0] == chars[0]);
        assert(encode_utf8(Seq::<char>::empty()) == Seq::<u8>::empty());
        assert(first == vstd::utf8::encode_scalar(chars[0] as u32) + encode_utf8(Seq::<char>::empty()));
        assert(first =~= vstd::utf8::encode_scalar(chars[0] as u32));
        assert(encode_utf8(chars) == first + encode_utf8(chars.drop_first()));
        lemma_escape_concat(first, encode_utf8(chars.drop_first()));
        lemma_escape_char_valid(chars[0]);
        lemma_escape_valid(chars.drop_first());
        vstd::utf8::valid_utf8_concat(escape(first), escape(encode_utf8(chars.drop_first())));
    }
}

proof fn lemma_ascii_valid(a: Seq<u8>)
    requires
        all_ascii(a),
    ensures
        valid_utf8(a),
{
    lemma_ascii_utf8(a);
}

proof fn lemma_quoted_valid(t: Seq<char>)
    ensures
        valid_utf8(quoted(t)),
{
    lemma_escape_valid(t);
    lemma_ascii_valid(seq![34u8]);
    vstd::utf8::valid_utf8_concat(seq![34u8], escape(encode_utf8(t)));
    vstd::utf8::valid_utf8_concat(seq![34u8] + escape(encode_utf8(t)), seq![34u8]);
}

/// A record is valid UTF-8: escaping touches only ASCII bytes.
pub proof fn lemma_record_valid_utf8(m: EntryModel)
    ensures
        valid_utf8(record(m)),
{
    lemma_ascii_valid(l_seq());
    lemma_ascii_valid(l_op());
    lemma_ascii_valid(l_ts());
    lemma_ascii_valid(l_ck());
    lemma_ascii_valid(null());
    lemma_ascii_valid(seq![125u8]);
    lemma_ascii_valid(put_key());
    lemma_ascii_valid(value_sep());
    lemma_ascii_valid(close2());
    lemma_ascii_valid(del_key());
    lemma_ascii_valid(clear());
    lemma_decimal_digits(m.seq as nat);
    lemma_ascii_valid(decimal(m.seq as nat));
    lemma_quoted_valid(m.timestamp);
    match m.op {
        OpModel::Put(k, v) => {
            lemma_quoted_valid(k);
            lemma_quoted_valid(v);
        },
        OpModel::Delete(k) => {
            lemma_quoted_valid(k);
        },
        OpModel::Clear => {},
    }
    assert(valid_utf8(op_bytes(m.op))) by {
        match m.op {
            OpModel::Put(k, v) => {
                vstd::utf8::valid_utf8_concat(put_key(), quoted(k));
                vstd::utf8::valid_utf8_concat(put_key() + quoted(k), value_sep());
                vstd::utf8::valid_utf8_concat(put_key() + quoted(k) + value_sep(), quoted(v));
                vstd::utf8::valid_utf8_concat(put_key() + quoted(k) + value_sep() + quoted(v), close2());
            },
            OpModel::Delete(k) => {
                vstd::utf8::valid_utf8_concat(del_key(), quoted(k));
                vstd::utf8::valid_utf8_concat(del_key() + quoted(k), close2());
            },
            OpModel::Clear => {},
        }
    }
    assert(valid_utf8(checksum_bytes(m.checksum))) by {
        match m.checksum {
            Some(c) => lemma_quoted_valid(c),
            None => {},
        }
    }
    let d = decimal(m.seq as nat);
    let o = op_bytes(m.op);
    let q = quoted(m.timestamp);
    let c = checksum_bytes(m.checksum);
    vstd::utf8::valid_utf8_concat(l_seq(), d);
    vstd::utf8::valid_utf8_concat(l_seq() + d, l_op());
    vstd::utf8::valid_utf8_concat(l_seq() + d + l_op(), o);
    vstd::utf8::valid_utf8_concat(l_seq() + d + l_op() + o, l_ts());
    vstd::utf8::valid_utf8_concat(l_seq() + d + l_op() + o + l_ts(), q);
    vstd::utf8::valid_utf8_concat(l_seq() + d + l_op() + o + l_ts() + q, l_ck());
    vstd::utf8::valid_utf8_concat(l_seq() + d + l_op() + o + l_ts() + q + l_ck(), c);
    vstd::utf8::valid_utf8_concat(l_seq() + d + l_op() + o + l_ts() + q + l_ck() + c, seq![125u8]);
}

/// No line break among the bytes `s`.
pub open spec fn no_newline(s: Seq<u8>) -> bool {
    forall|i: int| 0 <= i < s.len() ==> #[trigger] s[i] != 10
}

proof fn lemma_no_newline_concat(a: Seq<u8>, b: Seq<u8>)
    requires
        no_newline(a),
        no_newline(b),
    ensures
        no_newline(a + b),
{
    assert forall|i: int| 0 <= i < (a + b).len() implies #[trigger] (a + b)[i] != 10 by {
        if i < a.len() {
            assert((a + b)[i] == a[i]);
        } else {
            assert((a + b)[i] == b[i - a.len()]);
        }
    }
}

proof fn lemma_escape_no_newline(s: Seq<u8>)
    ensures
        no_newline(escape(s)),
    decreases s.len(),
{
    if s.len() > 0 {
        lemma_escape_no_newline(s.drop_first());
        let c = s[0];
        assert(no_newline(esc(c))) by {
            if c < 32 && c != 34 && c != 92 {
                assert(hex_digit(c as nat / 16) != 10 && hex_digit(c as nat % 16) != 10);
            }
        }
        lemma_no_newline_concat(esc(c), escape(s.drop_first()));
    }
}

proof fn lemma_quoted_no_newline(t: Seq<char>)
    ensures
        no_newline(quoted(t)),
{
    lemma_escape_no_newline(encode_utf8(t));
    lemma_no_newline_concat(seq![34u8], escape(encode_utf8(t)));
    lemma_no_newline_concat(seq![34u8] + escape(encode_utf8(t)), seq![34u8]);
}

/// A record holds no line break: control bytes are escaped.
proof fn lemma_record_no_newline(m: EntryModel)
    ensures
        no_newline(record(m)),
{
    lemma_decimal_digits(m.seq as nat);
    assert(no_newline(decimal(m.seq as nat))) by {
        assert forall|i: int| 0 <= i < decimal(m.seq as nat).len() implies #[trigger] decimal(m.seq as nat)[i] != 10 by {
            assert(is_digit(decimal(m.seq as nat)[i]));
        }
    }
    lemma_quoted_no_newline(m.timestamp);
    assert(no_newline(op_bytes(m.op))) by {
        match m.op {
            OpModel::Put(k, v) => {
                lemma_quoted_no_newline(k);
                lemma_quoted_no_newline(v);
                lemma_no_newline_concat(put_key(), quoted(k));
                lemma_no_newline_concat(put_key() + quoted(k), value_sep());
                lemma_no_newline_concat(put_key() + quoted(k) + value_sep(), quoted(v));
                lemma_no_newline_concat(put_key() + quoted(k) + value_sep() + quoted(v), close2());
            },
            OpModel::Delete(k) => {
                lemma_quoted_no_newline(k);
                lemma_no_newline_concat(del_key(), quoted(k));
                lemma_no_newline_concat(del_key() + quoted(k), close2());
            },
            OpModel::Clear => {},
        }
    }
    assert(no_newline(checksum_bytes(m.checksum))) by {
        match m.checksum {
            Some(c) => lemma_quoted_no_newline(c),
            None => {},
        }
    }
    let d = decimal(m.seq as nat);
    lemma_no_newline_concat(l_seq(), d);
    lemma_no_newline_concat(l_seq() + d, l_op());
    lemma_no_newline_concat(l_seq() + d + l_op(), op_bytes(m.op));
    lemma_no_newline_concat(l_seq() + d + l_op() + op_bytes(m.op), l_ts());
    lemma_no_newline_concat(l_seq() + d + l_op() + op_bytes(m.op) + l_ts(), quoted(m.timestamp));
    lemma_no_newline_concat(l_seq() + d + l_op() + op_bytes(m.op) + l_ts() + quoted(m.timestamp), l_ck());
    lemma_no_newline_concat(
        l_seq() + d + l_op() + op_bytes(m.op) + l_ts() + quoted(m.timestamp) + l_ck(),
        checksum_bytes(m.checksum),
    );
    lemma_no_newline_concat(
        l_seq() + d + l_op() + op_bytes(m.op) + l_ts() + quoted(m.timestamp) + l_ck() + checksum_bytes(
            m.checksum,
        ),
        seq![125u8],
    );
}

/// The log of the entries `es`: each record followed by a line break.
pub open spec fn log_text(es: Seq<EntryModel>) -> Seq<u8>
    decreases es.len(),
{
    if es.len() == 0 {
        Seq::empty()
    } else {
        record(es[0]) + seq![10u8] + log_text(es.drop_first())
    }
}

/// The position of the first line break at or after `i`, or the end.
pub open spec fn line_end(b: Seq<u8>, i: int) -> int
    decreases b.len() - i,
{
    if i < 0 || i >= b.len() || b[i] == 10 {
        i
    } else {
        line_end(b, i + 1)
    }
}

/// An ASCII whitespace byte other than the line break: space, tab,
/// vertical tab, form feed, carriage return.
pub open spec fn blank_byte(c: u8) -> bool {
    c == 32 || c == 9 || c == 11 || c == 12 || c == 13
}

/// ASCII whitespace only.
pub open spec fn blank(line: Seq<u8>) -> bool {
    forall|i: int| 0 <= i < line.len() ==> blank_byte(#[trigger] line[i])
}

/// The entry on a non-blank line: the line is the record of an entry whose
/// checksum holds.
pub open spec fn line_entry(line: Seq<u8>) -> Option<EntryModel> {
    match parse_record(line) {
        Some(m) => if checksum_holds(m) {
            Some(m)
        } else {
            None
        },
        None => None,
    }
}

/// Reads the log from position `i` on, after the entries `acc`; `None` when
/// a line is not a record or fails its checksum.
pub open spec fn scan_log(b: Seq<u8>, i: int, acc: Seq<EntryModel>) -> Option<Seq<EntryModel>>
    decreases b.len() - i,
{
    if i < 0 || i >= b.len() {
        Some(acc)
    } else {
        let e = line_end(b, i);
        if e < i || e > b.len() {
            None
        } else {
            let line = b.subrange(i, e);
            let next = if blank(line) {
                Some(acc)
            } else {
                match line_entry(line) {
                    Some(m) => Some(acc.push(m)),
                    None => None,
                }
            };
            match next {
                None => None,
                Some(a) => if e >= b.len() {
                    Some(a)
                } else {
                    scan_log(b, e + 1, a)
                },
            }
        }
    }
}

/// The entries of a whole log.
pub open spec fn read_log(b: Seq<u8>) -> Option<Seq<EntryModel>> {
    scan_log(b, 0, Seq::empty())
}

proof fn lemma_line_end(b: Seq<u8>, i: int, e: int)
    requires
        0 <= i <= e < b.len(),
        b[e] == 10,
        forall|k: int| i <= k < e ==> b[k] != 10,
    ensures
        line_end(b, i) == e,
    decreases e - i,
{
    if i < e {
        lemma_line_end(b, i + 1, e);
    }
}

proof fn lemma_scan_log_text(b: Seq<u8>, i: int, acc: Seq<EntryModel>, es: Seq<EntryModel>)
    requires
        0 <= i <= b.len(),
        b.subrange(i, b.len() as int) == log_text(es),
        forall|k: int| 0 <= k < es.len() ==> checksum_holds(#[trigger] es[k]),
    ensures
        scan_log(b, i, acc) == Some(acc + es),
    decreases es.len(),
{
    if es.len() == 0 {
        assert(b.subrange(i, b.len() as int).len() == 0);
        assert(acc + es =~= acc);
    } else {
        let m = es[0];
        let r = record(m);
        let rest = es.drop_first();
        let t = b.subrange(i, b.len() as int);
        assert(t == r + seq![10u8] + log_text(rest));
        lemma_record_no_newline(m);
        assert forall|k: int| i <= k < i + r.len() implies b[k] != 10 by {
            assert(t[k - i] == r[k - i]);
        }
        assert(b[i + r.len()] == 10) by {
            assert(t[r.len() as int] == 10);
        }
        lemma_line_end(b, i, i + r.len());
        assert(b.subrange(i, i + r.len()) =~= r) by {
            assert forall|k: int| 0 <= k < r.len() implies b[i + k] == r[k] by {
                assert(t[k] == r[k]);
            }
        }
        lemma_record_round_trip(m);
        assert(r[0] == 123);
        assert(!blank(r));
        assert(line_entry(r) == Some(m));
        assert(b.subrange(i + r.len() + 1, b.len() as int) =~= log_text(rest)) by {
            assert forall|k: int| 0 <= k < log_text(rest).len() implies b[i + r.len() + 1 + k] == log_text(rest)[k] by {
                assert(t[r.len() + 1 + k] == log_text(rest)[k]);
            }
        }
        assert forall|k: int| 0 <= k < rest.len() implies checksum_holds(#[trigger] rest[k]) by {
            assert(rest[k] == es[k + 1]);
        }
        lemma_scan_log_text(b, i + r.len() + 1, acc.push(m), rest);
        assert(acc.push(m) + rest =~= acc + es);
    }
}

/// A log written entry by entry reads back as the same entries, provided
/// each checksum holds.
pub proof fn lemma_read_log_text(es: Seq<EntryModel>)
    requires
        forall|k: int| 0 <= k < es.len() ==> checksum_holds(#[trigger] es[k]),
    ensures
        read_log(log_text(es)) == Some(es),
{
    let b = log_text(es);
    assert(b.subrange(0, b.len() as int) =~= b);
    lemma_scan_log_text(b, 0, Seq::empty(), es);
    assert(Seq::<EntryModel>::empty() + es =~= es);
}

/// The views of a sequence of entries.
pub open spec fn views(v: Seq<WalEntry>) -> Seq<EntryModel> {
    v.map_values(|e: WalEntry| e@)
}

/// The largest sequence number among `es`, 0 for none.
pub open spec fn max_seq(es: Seq<EntryModel>) -> u64
    decreases es.len(),
{
    if es.len() == 0 {
        0
    } else if es.last().seq > max_seq(es.drop_last()) {
        es.last().seq
    } else {
        max_seq(es.drop_last())
    }
}

fn find_line_end(b: &[u8], i: usize) -> (r: usize)
    requires
        i <= b@.len(),
    ensures
        r == line_end(b@, i as int),
        i <= r <= b@.len(),
{
    let n = b.len();
    let mut j: usize = i;
    while j < n && b[j] != 10
        invariant
            n == b@.len(),
            i <= j <= n,
            line_end(b@, i as int) == line_end(b@, j as int),
        decreases n - j,
    {
        j = j + 1;
    }
    j
}

fn is_blank(line: &[u8]) -> (r: bool)
    ensures
        r == blank(line@),
{
    let mut i: usize = 0;
    while i < line.len()
        invariant
            0 <= i <= line@.len(),
            forall|k: int| 0 <= k < i ==> blank_byte(#[trigger] line@[k]),
        decreases line@.len() - i,
    {
        let c = line[i];
        if c != 32 && c != 9 && c != 11 && c != 12 && c != 13 {
            return false;
        }
        i = i + 1;
    }
    true
}

/// Numbering and reading of the write-ahead log. The file itself belongs to
/// the caller: it appends the records that [`WalManager::prepare_entry`]
/// gives, flushes them, and then calls [`WalManager::record_appended`]; it
/// hands the file's bytes to [`WalManager::read_all_entries`].
pub struct WalManager {
    file_path: String,
    sequence_number: u64,
    use_checksums: bool,
}

impl WalManager {
    /// The sequence number of the last entry appended or read.
    pub closed spec fn seq(&self) -> u64 {
        self.sequence_number
    }

    pub closed spec fn checksums(&self) -> bool {
        self.use_checksums
    }

    pub closed spec fn path(&self) -> Seq<char> {
        self.file_path@
    }

    /// A manager for the log at `file_path`, with checksums.
    pub fn new(file_path: &str) -> (r: WalManager)
        ensures
            r.seq() == 0,
            r.checksums(),
            r.path() == file_path@,
    {
        WalManager { file_path: owned(file_path), sequence_number: 0, use_checksums: true }
    }

    /// A manager for the log at `file_path`, with or without checksums.
    pub fn new_with_options(file_path: &str, use_checksums: bool) -> (r: WalManager)
        ensures
            r.seq() == 0,
            r.checksums() == use_checksums,
            r.path() == file_path@,
    {
        WalManager { file_path: owned(file_path), sequence_number: 0, use_checksums }
    }

    /// The entry that logs `operation` next, with the following sequence
    /// number and, if enabled, a checksum. Nothing changes until the caller
    /// reports the append; fails when the numbers are exhausted.
    pub fn prepare_entry(&self, operation: WalOperation, timestamp: String) -> (r: StorageResult<WalEntry>)
        ensures
            r is Ok <==> self.seq() < u64::MAX,
            r matches Ok(e) ==> {
                &&& e.sequence_number == self.seq() + 1
                &&& e.operation == operation
                &&& e.timestamp == timestamp
                &&& (e.checksum is Some <==> self.checksums())
                &&& checksum_holds(e@)
            },
            r matches Err(e) ==> e is Internal,
    {
        if self.sequence_number == u64::MAX {
            return Err(StorageError::Internal(owned("WAL sequence numbers exhausted")));
        }
        let seq = self.sequence_number + 1;
        if self.use_checksums {
            Ok(WalEntry::new_with_checksum_at(seq, operation, timestamp))
        } else {
            Ok(WalEntry::new_at(seq, operation, timestamp))
        }
    }

    /// Records that the entry numbered `sequence_number` is in the log.
    pub fn record_appended(&mut self, sequence_number: u64)
        ensures
            final(self).seq() == sequence_number,
            final(self).checksums() == old(self).checksums(),
            final(self).path() == old(self).path(),
    {
        self.sequence_number = sequence_number;
    }

    /// Reads every entry of the log `log`, in order. Blank lines are
    /// skipped; a line that is not a record, or whose checksum fails, fails
    /// the whole read. After a read that found entries, the sequence number
    /// is the largest one among them.
    pub fn read_all_entries(&mut self, log: &[u8]) -> (r: StorageResult<Vec<WalEntry>>)
        ensures
            r is Ok <==> read_log(log@) is Some,
            r matches Ok(v) ==> views(v@) == read_log(log@)->0,
            r matches Err(e) ==> e is Internal,
            final(self).checksums() == old(self).checksums(),
            final(self).path() == old(self).path(),
            r is Err ==> final(self).seq() == old(self).seq(),
            r matches Ok(v) ==> final(self).seq() == if v@.len() == 0 {
                old(self).seq()
            } else {
                max_seq(views(v@))
            },
    {
        let n = log.len();
        let mut entries: Vec<WalEntry> = Vec::new();
        let mut highest: u64 = 0;
        let mut i: usize = 0;
        let mut line_number: u64 = 1;
        assert(views(entries@) =~= Seq::<EntryModel>::empty());
        while i < n
            invariant
                n == log@.len(),
                i <= n,
                read_log(log@) == scan_log(log@, i as int, views(entries@)),
                highest == max_seq(views(entries@)),
                self.checksums() == old(self).checksums(),
                self.path() == old(self).path(),
                self.seq() == old(self).seq(),
            decreases n - i,
        {
            let e = find_line_end(log, i);
            let line = vstd::slice::slice_subrange(log, i, e);
            let ghost before = views(entries@);
            if !is_blank(line) {
                let entry = match WalEntry::from_record(line) {
                    Ok(entry) => entry,
                    Err(_) => {
                        let mut msg = owned("Failed to deserialize WAL entry at line ");
                        crate::text::push_number(&mut msg, line_number);
                        return Err(StorageError::Internal(msg));
                    },
                };
                if !entry.verify_checksum() {
                    let mut msg = owned("Checksum verification failed for WAL entry at line ");
                    crate::text::push_number(&mut msg, line_number);
                    return Err(StorageError::Internal(msg));
                }
                if entry.sequence_number > highest {
                    highest = entry.sequence_number;
                }
                entries.push(entry);
                proof {
                    assert(views(entries@) =~= before.push(entry@));
                    assert(views(entries@).drop_last() =~= before);
                }
            }
            if e >= n {
                i = n;
            } else {
                i = e + 1;
            }
            line_number = line_number.saturating_add(1);
        }
        if entries.len() > 0 {
            self.sequence_number = highest;
        }
        Ok(entries)
    }

    /// The sequence number of the last entry appended or read.
    pub fn current_sequence_number(&self) -> (r: u64)
        ensures
            r == self.seq(),
    {
        self.sequence_number
    }

    /// Forgets the numbering, after the caller emptied the log file.
    pub fn truncate(&mut self)
        ensures
            final(self).seq() == 0,
            final(self).checksums() == old(self).checksums(),
            final(self).path() == old(self).path(),
    {
        self.sequence_number = 0;
    }

    /// Path of the log file.
    pub fn file_pat(&self) -> (r: &str)
        ensures
            r@ == self.path(),
    {
        self.file_path.as_str()
    }

    /// Whether entries get checksums.
    pub fn uses_checksums(&self) -> (r: bool)
        ensures
            r == self.checksums(),
    {
        self.use_checksums
    }
}

} // verus!


