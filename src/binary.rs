use vstd::prelude::*;
use vstd::utf8::*;

use byteorder::{BigEndian, ByteOrder};

use crate::decimal::decimal;
use crate::error::{ErrorView, ParseError};
use crate::scan::utf8_string;
use crate::transaction::{
    lemma_status_bijection, lemma_type_bijection, status_code, status_of_code, type_code, type_of_code, views, Transaction,
    TransactionStatus,
    TransactionType, TransactionView,
};

verus! {

/// Codec of the binary layout: each record is the magic bytes, a record
/// size, then the fields in big-endian order and the description as UTF-8.
pub struct BinaryFormat;

/// The four bytes that open every record.
pub open spec fn magic() -> Seq<u8> {
    seq![0x59u8, 0x50u8, 0x42u8, 0x4Eu8]
}

/// Bytes of a record before its description: every fixed field.
pub const HEADER_LEN: usize = 54;

/// Bytes of a record after its size field, less the description.
pub const FIXED_BODY_LEN: u32 = 46;

/// The value of bytes read as a big-endian unsigned integer.
pub open spec fn be_value(s: Seq<u8>) -> nat
    decreases s.len(),
{
    if s.len() == 0 {
        0
    } else {
        be_value(s.drop_last()) * 256 + s.last() as nat
    }
}

/// The `n` low bytes of `v`, most significant first.
pub open spec fn be_bytes(v: nat, n: nat) -> Seq<u8>
    decreases n,
{
    if n == 0 {
        seq![]
    } else {
        be_bytes(v / 256, (n - 1) as nat).push((v % 256) as u8)
    }
}

/// The two's complement bits of a signed 64-bit value, as an unsigned value.
pub open spec fn i64_bits(v: i64) -> nat {
    if v < 0 {
        (v + 0x1_0000_0000_0000_0000) as nat
    } else {
        v as nat
    }
}

/// The signed 64-bit value whose two's complement bits are `u`.
pub open spec fn i64_of_bits(u: nat) -> int {
    if u < 0x8000_0000_0000_0000 {
        u as int
    } else {
        u - 0x1_0000_0000_0000_0000
    }
}

pub open spec fn pow256(n: nat) -> nat
    decreases n,
{
    if n == 0 {
        1
    } else {
        256 * pow256((n - 1) as nat)
    }
}

/// Relies on `BigEndian::read_u32`: the first four bytes of the slice as a big-endian value.
#[verifier::external_body]
fn read_be_u32(b: &[u8], pos: usize) -> (r: u32)
    requires
        pos + 4 <= b@.len(),
    ensures
        r as nat == be_value(b@.subrange(pos as int, pos + 4)),
{
    BigEndian::read_u32(&b[pos..])
}

/// Relies on `BigEndian::read_u64`: the first eight bytes of the slice as a big-endian value.
#[verifier::external_body]
fn read_be_u64(b: &[u8], pos: usize) -> (r: u64)
    requires
        pos + 8 <= b@.len(),
    ensures
        r as nat == be_value(b@.subrange(pos as int, pos + 8)),
{
    BigEndian::read_u64(&b[pos..])
}

/// Relies on `BigEndian::read_i64`: the first eight bytes of the slice as a
/// big-endian two's complement value.
#[verifier::external_body]
fn read_be_i64(b: &[u8], pos: usize) -> (r: i64)
    requires
        pos + 8 <= b@.len(),
    ensures
        r as int == i64_of_bits(be_value(b@.subrange(pos as int, pos + 8))),
{
    BigEndian::read_i64(&b[pos..])
}

/// Relies on `BigEndian::write_u32`: the four bytes of the value, most significant first.
#[verifier::external_body]
fn put_be_u32(out: &mut Vec<u8>, v: u32)
    ensures
        final(out)@ == old(out)@ + be_bytes(v as nat, 4),
{
    let mut buf = [0u8; 4];
    BigEndian::write_u32(&mut buf, v);
    out.extend_from_slice(&buf);
}

/// Relies on `BigEndian::write_u64`: the eight bytes of the value, most significant first.
#[verifier::external_body]
fn put_be_u64(out: &mut Vec<u8>, v: u64)
    ensures
        final(out)@ == old(out)@ + be_bytes(v as nat, 8),
{
    let mut buf = [0u8; 8];
    BigEndian::write_u64(&mut buf, v);
    out.extend_from_slice(&buf);
}

/// Relies on `BigEndian::write_i64`: the eight two's complement bytes of the
/// value, most significant first.
#[verifier::external_body]
fn put_be_i64(out: &mut Vec<u8>, v: i64)
    ensures
        final(out)@ == old(out)@ + be_bytes(i64_bits(v), 8),
{
    let mut buf = [0u8; 8];
    BigEndian::write_i64(&mut buf, v);
    out.extend_from_slice(&buf);
}

/// Reading back the `n` bytes of a value below `256^n` gives the value.
pub proof fn lemma_be_round_trip(v: nat, n: nat)
    requires
        v < pow256(n),
    ensures
        be_bytes(v, n).len() == n,
        be_value(be_bytes(v, n)) == v,
    decreases n,
{
    if n == 0 {
    } else {
        let p = pow256((n - 1) as nat);
        assert(v / 256 < p) by (nonlinear_arith)
            requires
                v < 256 * p,
        ;
        lemma_be_round_trip(v / 256, (n - 1) as nat);
        let s = be_bytes(v, n);
        assert(s.drop_last() =~= be_bytes(v / 256, (n - 1) as nat));
        assert(v == (v / 256) * 256 + v % 256);
    }
}

/// The I/O failure reported when the bytes end inside a record.
pub open spec fn truncated_reason() -> Seq<char> {
    "unexpected end of file inside a record"@
}

/// The reason given when a record cannot state its size in 32 bits.
pub open spec fn oversized_reason() -> Seq<char> {
    "record too large for its size field"@
}

/// The description bytes of a transaction.
pub open spec fn description_bytes(t: TransactionView) -> Seq<u8> {
    encode_utf8(t.description)
}

/// Whether the size of the record of `t` fits in its 32-bit size field.
pub open spec fn encodable(t: TransactionView) -> bool {
    description_bytes(t).len() + FIXED_BODY_LEN <= u32::MAX
}

/// The bytes of one record.
pub open spec fn record_bytes(t: TransactionView) -> Seq<u8> {
    let d = description_bytes(t);
    magic() + be_bytes((d.len() + FIXED_BODY_LEN) as nat, 4) + be_bytes(t.tx_id as nat, 8) + seq![
        type_code(t.tx_type),
    ] + be_bytes(t.from_user_id as nat, 8) + be_bytes(t.to_user_id as nat, 8) + be_bytes(
        i64_bits(t.amount),
        8,
    ) + be_bytes(t.timestamp as nat, 8) + seq![status_code(t.status)] + be_bytes(d.len(), 4) + d
}

/// The bytes of records laid one after another, in order.
pub open spec fn records_bytes(s: Seq<TransactionView>) -> Seq<u8>
    decreases s.len(),
{
    if s.len() == 0 {
        seq![]
    } else {
        record_bytes(s[0]) + records_bytes(s.drop_first())
    }
}

/// The length of the record that starts at `pos`, as its description length field declares.
pub open spec fn declared_len(b: Seq<u8>, pos: int) -> nat {
    (HEADER_LEN + be_value(b.subrange(pos + 50, pos + 54))) as nat
}

/// The transaction of the record at `pos`, or the failure met while reading it.
pub open spec fn record_at(b: Seq<u8>, pos: int) -> Result<TransactionView, ErrorView> {
    if b.len() < pos + 4 {
        Err(ErrorView::Io(truncated_reason()))
    } else if b.subrange(pos, pos + 4) != magic() {
        Err(ErrorView::InvalidMagic)
    } else if b.len() < pos + 17 {
        Err(ErrorView::Io(truncated_reason()))
    } else if type_of_code(b[pos + 16]) is None {
        Err(ErrorView::InvalidTransactionType(decimal(b[pos + 16] as nat)))
    } else if b.len() < pos + 50 {
        Err(ErrorView::Io(truncated_reason()))
    } else if status_of_code(b[pos + 49]) is None {
        Err(ErrorView::InvalidTransactionStatus(decimal(b[pos + 49] as nat)))
    } else if b.len() < pos + 54 {
        Err(ErrorView::Io(truncated_reason()))
    } else if b.len() < pos + declared_len(b, pos) {
        Err(ErrorView::Io(truncated_reason()))
    } else if !valid_utf8(b.subrange(pos + 54, pos + declared_len(b, pos))) {
        Err(ErrorView::Utf8)
    } else {
        Ok(
            TransactionView {
                tx_id: be_value(b.subrange(pos + 8, pos + 16)) as u64,
                tx_type: type_of_code(b[pos + 16])->Some_0,
                from_user_id: be_value(b.subrange(pos + 17, pos + 25)) as u64,
                to_user_id: be_value(b.subrange(pos + 25, pos + 33)) as u64,
                amount: i64_of_bits(be_value(b.subrange(pos + 33, pos + 41))) as i64,
                timestamp: be_value(b.subrange(pos + 41, pos + 49)) as u64,
                status: status_of_code(b[pos + 49])->Some_0,
                description: decode_utf8(b.subrange(pos + 54, pos + declared_len(b, pos))),
            },
        )
    }
}

/// `acc` followed by what `r` holds, or the failure of `r`.
pub open spec fn prepend(acc: Seq<TransactionView>, r: Result<Seq<TransactionView>, ErrorView>) -> Result<
    Seq<TransactionView>,
    ErrorView,
> {
    match r {
        Ok(rest) => Ok(acc + rest),
        Err(e) => Err(e),
    }
}

/// The transactions of the records from `pos` on, in order; the first failure, if any.
pub open spec fn decode_from(b: Seq<u8>, pos: int) -> Result<Seq<TransactionView>, ErrorView>
    decreases b.len() - pos,
{
    if pos >= b.len() {
        Ok(seq![])
    } else {
        match record_at(b, pos) {
            Ok(t) => prepend(seq![t], decode_from(b, pos + declared_len(b, pos))),
            Err(e) => Err(e),
        }
    }
}

/// What decoding the whole of `b` gives.
pub open spec fn decode_binary(b: Seq<u8>) -> Result<Seq<TransactionView>, ErrorView> {
    decode_from(b, 0)
}

fn truncated() -> (e: ParseError)
    ensures
        e@ == ErrorView::Io(truncated_reason()),
{
    ParseError::Io(String::from_str("unexpected end of file inside a record"))
}

impl BinaryFormat {
    /// Reads the record that starts at `pos`; returns it and its length.
    fn read_transaction(data: &[u8], pos: usize) -> (r: Result<(Transaction, usize), ParseError>)
        requires
            pos < data@.len(),
        ensures
            r matches Ok((t, n)) ==> record_at(data@, pos as int) == Ok::<
                TransactionView,
                ErrorView,
            >(t@) && n == declared_len(data@, pos as int) && pos + n <= data@.len(),
            r matches Err(e) ==> record_at(data@, pos as int) == Err::<TransactionView, ErrorView>(
                e@,
            ),
    {
        let len = data.len();
        if len - pos < 4 {
            return Err(truncated());
        }
        if !(data[pos] == 0x59u8 && data[pos + 1] == 0x50u8 && data[pos + 2] == 0x42u8 && data[pos
            + 3] == 0x4Eu8) {
            proof {
                if data@.subrange(pos as int, pos + 4) == magic() {
                    assert(data@.subrange(pos as int, pos + 4)[0] == data@[pos as int]);
                    assert(data@.subrange(pos as int, pos + 4)[1] == data@[pos + 1]);
                    assert(data@.subrange(pos as int, pos + 4)[2] == data@[pos + 2]);
                    assert(data@.subrange(pos as int, pos + 4)[3] == data@[pos + 3]);
                }
            }
            return Err(ParseError::InvalidMagic);
        }
        assert(data@.subrange(pos as int, pos + 4) =~= magic());
        if len - pos < 17 {
            return Err(truncated());
        }
        // The declared record size is read past, not checked against the bytes
        // that follow: the description length alone delimits the record.
        let _record_size = read_be_u32(data, pos + 4);
        let tx_id = read_be_u64(data, pos + 8);
        let type_byte = data[pos + 16];
        let tx_type = TransactionType::from_code_checked(type_byte)?;
        if len - pos < 50 {
            return Err(truncated());
        }
        let from_user_id = read_be_u64(data, pos + 17);
        let to_user_id = read_be_u64(data, pos + 25);
        let amount = read_be_i64(data, pos + 33);
        let timestamp = read_be_u64(data, pos + 41);
        let status_byte = data[pos + 49];
        let status = TransactionStatus::from_code_checked(status_byte)?;
        if len - pos < HEADER_LEN {
            return Err(truncated());
        }
        let description_len = read_be_u32(data, pos + 50) as usize;
        if len - pos - HEADER_LEN < description_len {
            return Err(truncated());
        }
        let end = pos + HEADER_LEN + description_len;
        let description = match utf8_string(data, pos + HEADER_LEN, end) {
            Some(s) => s,
            None => {
                return Err(ParseError::Utf8);
            },
        };
        let t = Transaction {
            tx_id,
            tx_type,
            from_user_id,
            to_user_id,
            amount,
            timestamp,
            status,
            description,
        };
        Ok((t, HEADER_LEN + description_len))
    }

    /// Decodes every record of `data`, in order. Empty input gives no records;
    /// input that ends inside a record, or a record that breaks the layout, fails.
    pub fn read_from(&self, data: &[u8]) -> (r: Result<Vec<Transaction>, ParseError>)
        ensures
            r matches Ok(v) ==> decode_binary(data@) == Ok::<Seq<TransactionView>, ErrorView>(
                views(v@),
            ),
            r matches Err(e) ==> decode_binary(data@) == Err::<Seq<TransactionView>, ErrorView>(
                e@,
            ),
    {
        let mut out: Vec<Transaction> = Vec::new();
        let mut pos: usize = 0;
        while pos < data.len()
            invariant
                pos <= data@.len(),
                decode_binary(data@) == prepend(views(out@), decode_from(data@, pos as int)),
            decreases data@.len() - pos,
        {
            match Self::read_transaction(data, pos) {
                Ok((t, n)) => {
                    let ghost before = views(out@);
                    out.push(t);
                    proof {
                        assert(views(out@) =~= before + seq![t@]);
                        let rest = decode_from(data@, pos + n);
                        assert(decode_from(data@, pos as int) == prepend(seq![t@], rest));
                        match rest {
                            Ok(s) => {
                                assert(before + (seq![t@] + s) =~= (before + seq![t@]) + s);
                            },
                            Err(_) => {},
                        }
                    }
                    pos = pos + n;
                },
                Err(e) => {
                    return Err(e);
                },
            }
        }
        assert(views(out@) + seq![] =~= views(out@));
        Ok(out)
    }

    /// Appends the record of `t` to `out`.
    #[verifier::rlimit(40)]
    fn write_transaction(out: &mut Vec<u8>, t: &Transaction)
        requires
            encodable(t@),
        ensures
            final(out)@ == old(out)@ + record_bytes(t@),
    {
        let ghost before = out@;
        let d = t.description.as_str().as_bytes();
        let dlen = d.len() as u32;
        out.push(0x59u8);
        out.push(0x50u8);
        out.push(0x42u8);
        out.push(0x4Eu8);
        put_be_u32(out, dlen + FIXED_BODY_LEN);
        put_be_u64(out, t.tx_id);
        out.push(t.tx_type.code());
        put_be_u64(out, t.from_user_id);
        put_be_u64(out, t.to_user_id);
        put_be_i64(out, t.amount);
        put_be_u64(out, t.timestamp);
        out.push(t.status.code());
        put_be_u32(out, dlen);
        out.extend_from_slice(d);
        assert(final(out)@ =~= before + record_bytes(t@));
    }

    /// Appends the records of `transactions` to `out`, in order. Fails, writing
    /// nothing, when a record's size does not fit in its 32-bit size field.
    pub fn write_to(&self, out: &mut Vec<u8>, transactions: &[Transaction]) -> (r: Result<
        (),
        ParseError,
    >)
        ensures
            r is Ok <==> forall|i: int|
                0 <= i < transactions@.len() ==> encodable(#[trigger] transactions@[i]@),
            r is Ok ==> final(out)@ == old(out)@ + records_bytes(views(transactions@)),
            r matches Err(e) ==> final(out)@ == old(out)@ && e@ == ErrorView::InvalidFormat(
                oversized_reason(),
            ),
    {
        let mut i: usize = 0;
        while i < transactions.len()
            invariant
                i <= transactions@.len(),
                forall|k: int| 0 <= k < i ==> encodable(#[trigger] transactions@[k]@),
            decreases transactions@.len() - i,
        {
            let n = transactions[i].description.as_str().as_bytes().len();
            if n > (u32::MAX - FIXED_BODY_LEN) as usize {
                assert(!encodable(transactions@[i as int]@));
                return Err(
                    ParseError::InvalidFormat(String::from_str("record too large for its size field")),
                );
            }
            i = i + 1;
        }
        let ghost start = out@;
        let mut j: usize = 0;
        while j < transactions.len()
            invariant
                j <= transactions@.len(),
                forall|k: int| 0 <= k < transactions@.len() ==> encodable(#[trigger] transactions@[k]@),
                out@ == start + records_bytes(views(transactions@).take(j as int)),
            decreases transactions@.len() - j,
        {
            let ghost before = out@;
            Self::write_transaction(out, &transactions[j]);
            proof {
                lemma_records_bytes_push(views(transactions@).take(j as int), transactions@[j as int]@);
                assert(views(transactions@).take(j + 1) =~= views(transactions@).take(j as int).push(
                    transactions@[j as int]@,
                ));
            }
            j = j + 1;
        }
        assert(views(transactions@).take(j as int) =~= views(transactions@));
        Ok(())
    }
}

/// Adding a transaction at the end adds its record at the end.
pub proof fn lemma_records_bytes_push(s: Seq<TransactionView>, t: TransactionView)
    ensures
        records_bytes(s.push(t)) == records_bytes(s) + record_bytes(t),
    decreases s.len(),
{
    if s.len() == 0 {
        assert(s.push(t).drop_first() =~= Seq::<TransactionView>::empty());
        assert(records_bytes(s.push(t)) =~= record_bytes(t) + records_bytes(Seq::<TransactionView>::empty()));
        assert(records_bytes(s) + record_bytes(t) =~= record_bytes(t));
    } else {
        lemma_records_bytes_push(s.drop_first(), t);
        assert(s.push(t).drop_first() =~= s.drop_first().push(t));
        assert(records_bytes(s.push(t)) =~= record_bytes(s[0]) + (records_bytes(s.drop_first())
            + record_bytes(t)));
    }
}

/// `256^4` and `256^8`, the ranges of 32-bit and 64-bit values.
pub proof fn lemma_pow256_values()
    ensures
        pow256(4) == 0x1_0000_0000,
        pow256(8) == 0x1_0000_0000_0000_0000,
{
    reveal_with_fuel(pow256, 9);
}

/// The record of `t` laid at `pos` reads back as `t` and declares its own length.
pub proof fn lemma_record_at(b: Seq<u8>, pos: int, t: TransactionView)
    requires
        encodable(t),
        0 <= pos,
        pos + record_bytes(t).len() <= b.len(),
        b.subrange(pos, pos + record_bytes(t).len()) == record_bytes(t),
    ensures
        record_bytes(t).len() == HEADER_LEN + description_bytes(t).len(),
        record_at(b, pos) == Ok::<TransactionView, ErrorView>(t),
        declared_len(b, pos) == record_bytes(t).len(),
{
    lemma_pow256_values();
    let d = description_bytes(t);
    let size = be_bytes((d.len() + FIXED_BODY_LEN) as nat, 4);
    let id = be_bytes(t.tx_id as nat, 8);
    let from = be_bytes(t.from_user_id as nat, 8);
    let to = be_bytes(t.to_user_id as nat, 8);
    let amount = be_bytes(i64_bits(t.amount), 8);
    let ts = be_bytes(t.timestamp as nat, 8);
    let dl = be_bytes(d.len(), 4);
    lemma_be_round_trip((d.len() + FIXED_BODY_LEN) as nat, 4);
    lemma_be_round_trip(t.tx_id as nat, 8);
    lemma_be_round_trip(t.from_user_id as nat, 8);
    lemma_be_round_trip(t.to_user_id as nat, 8);
    lemma_be_round_trip(i64_bits(t.amount), 8);
    lemma_be_round_trip(t.timestamp as nat, 8);
    lemma_be_round_trip(d.len(), 4);
    let r = record_bytes(t);
    let p = magic() + size + id + seq![type_code(t.tx_type)];
    let q = p + from + to + amount + ts + seq![status_code(t.status)];
    assert(r =~= q + dl + d);
    assert(p[16] == type_code(t.tx_type));
    assert(q[16] == p[16]);
    assert(q[49] == status_code(t.status));
    assert(r[16] == q[16]);
    assert(r[49] == q[49]);
    assert(r.len() == 54 + d.len());
    let w = b.subrange(pos, pos + r.len());
    assert(forall|i: int| 0 <= i < r.len() ==> b[pos + i] == #[trigger] r[i]) by {
        assert forall|i: int| 0 <= i < r.len() implies b[pos + i] == #[trigger] r[i] by {
            assert(w[i] == b[pos + i]);
        }
    }
    assert(b.subrange(pos, pos + 4) =~= magic()) by {
        assert(forall|i: int| 0 <= i < 4 ==> r[i] == #[trigger] magic()[i]);
    }
    assert(b.subrange(pos + 8, pos + 16) =~= id) by {
        assert(forall|i: int| 0 <= i < 8 ==> r[8 + i] == #[trigger] id[i]);
    }
    assert(b[pos + 16] == type_code(t.tx_type));
    assert(b.subrange(pos + 17, pos + 25) =~= from) by {
        assert(forall|i: int| 0 <= i < 8 ==> r[17 + i] == #[trigger] from[i]);
    }
    assert(b.subrange(pos + 25, pos + 33) =~= to) by {
        assert(forall|i: int| 0 <= i < 8 ==> r[25 + i] == #[trigger] to[i]);
    }
    assert(b.subrange(pos + 33, pos + 41) =~= amount) by {
        assert(forall|i: int| 0 <= i < 8 ==> r[33 + i] == #[trigger] amount[i]);
    }
    assert(b.subrange(pos + 41, pos + 49) =~= ts) by {
        assert(forall|i: int| 0 <= i < 8 ==> r[41 + i] == #[trigger] ts[i]);
    }
    assert(b[pos + 49] == status_code(t.status));
    assert(b.subrange(pos + 50, pos + 54) =~= dl) by {
        assert(forall|i: int| 0 <= i < 4 ==> r[50 + i] == #[trigger] dl[i]);
    }
    assert(b.subrange(pos + 54, pos + 54 + d.len()) =~= d) by {
        assert(forall|i: int| 0 <= i < d.len() ==> r[54 + i] == #[trigger] d[i]);
    }
    lemma_type_bijection(t.tx_type, seq![], 0);
    lemma_status_bijection(t.status, seq![], 0);
    encode_utf8_valid_utf8(t.description);
    encode_utf8_decode_utf8(t.description);
}

/// Decoding the records of `s`, laid from `pos` to the end of `b`, gives `s`.
pub proof fn lemma_decode_records(b: Seq<u8>, pos: int, s: Seq<TransactionView>)
    requires
        forall|i: int| 0 <= i < s.len() ==> encodable(#[trigger] s[i]),
        0 <= pos <= b.len(),
        b.subrange(pos, b.len() as int) == records_bytes(s),
    ensures
        decode_from(b, pos) == Ok::<Seq<TransactionView>, ErrorView>(s),
    decreases s.len(),
{
    if s.len() == 0 {
        assert(b.subrange(pos, b.len() as int).len() == 0);
        assert(s =~= Seq::<TransactionView>::empty());
    } else {
        let t = s[0];
        let r = record_bytes(t);
        let rest = records_bytes(s.drop_first());
        assert(b.subrange(pos, b.len() as int) == r + rest);
        assert(b.subrange(pos, pos + r.len()) =~= r) by {
            assert(forall|i: int| 0 <= i < r.len() ==> b.subrange(pos, b.len() as int)[i] == #[trigger] r[i]);
        }
        lemma_record_at(b, pos, t);
        assert(b.subrange(pos + r.len(), b.len() as int) =~= rest) by {
            assert(forall|i: int| 0 <= i < rest.len() ==> b.subrange(pos, b.len() as int)[r.len() + i] == #[trigger] rest[i]);
        }
        lemma_decode_records(b, pos + r.len(), s.drop_first());
        assert(pos < b.len());
        assert(decode_from(b, pos) == prepend(seq![t], decode_from(b, pos + r.len())));
        assert(seq![t] + s.drop_first() =~= s);
    }
}

/// Decoding what encoding a sequence of transactions wrote gives the sequence back.
pub proof fn lemma_binary_round_trip(s: Seq<TransactionView>)
    requires
        forall|i: int| 0 <= i < s.len() ==> encodable(#[trigger] s[i]),
    ensures
        decode_binary(records_bytes(s)) == Ok::<Seq<TransactionView>, ErrorView>(s),
{
    let b = records_bytes(s);
    assert(b.subrange(0, b.len() as int) =~= b);
    lemma_decode_records(b, 0, s);
}

/// Empty input holds no records, and that is no failure.
pub proof fn lemma_binary_empty()
    ensures
        decode_binary(Seq::<u8>::empty()) == Ok::<Seq<TransactionView>, ErrorView>(Seq::empty()),
{
}

/// Input whose first four bytes are not the magic bytes fails with `InvalidMagic`.
pub proof fn lemma_binary_bad_magic(b: Seq<u8>)
    requires
        b.len() >= 4,
        b.subrange(0, 4) != magic(),
    ensures
        decode_binary(b) == Err::<Seq<TransactionView>, ErrorView>(ErrorView::InvalidMagic),
{
}

/// A record cut short by at least one byte, but not to nothing, fails to decode.
pub proof fn lemma_binary_truncated(t: TransactionView, k: int)
    requires
        encodable(t),
        1 <= k < record_bytes(t).len(),
    ensures
        decode_binary(record_bytes(t).subrange(0, record_bytes(t).len() - k)) == Err::<
            Seq<TransactionView>,
            ErrorView,
        >(ErrorView::Io(truncated_reason())),
{
    let r = record_bytes(t);
    let full = r + Seq::<u8>::new(k as nat, |i: int| 0u8);
    assert(full.subrange(0, r.len() as int) =~= r);
    lemma_record_at(full, 0, t);
    let b = r.subrange(0, r.len() - k);
    assert(forall|i: int| 0 <= i < b.len() ==> b[i] == #[trigger] full[i]);
    if b.len() >= 4 {
        assert(b.subrange(0, 4) =~= full.subrange(0, 4));
    }
    if b.len() >= 54 {
        assert(b.subrange(50, 54) =~= full.subrange(50, 54));
        assert(declared_len(b, 0) == declared_len(full, 0));
    }
}

} // verus!
