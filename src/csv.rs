use vstd::prelude::*;
use vstd::utf8::*;

use crate::binary::prepend;
use crate::decimal::{
    decimal, lemma_decimal, parse_i64_spec, parse_u64_spec, lemma_decimal_plain, lemma_parse_decimal_i64, lemma_parse_decimal_u64,
    push_decimal, signed_decimal,
};
use crate::error::{ErrorView, ParseError};
use crate::record::{opt_seqs, record_from_values, transaction_from_values, FIELD_COUNT};
use crate::scan::{
    lemma_encode_ascii, lemma_encode_utf8_concat, append_utf8, chars_of, chars_to_string, is_plain, is_whitespace, lacks, plain, lemma_lacks_concat, lemma_pieces_cons,
    lemma_pieces_single, lemma_plain, lemma_trim_lead, lemma_trim_none, lemma_trim_trail, lines,
    push_str, seqs, split_commas, split_pieces, trim, trim_chars, trim_quotes, utf8_string,
};
use crate::transaction::{
    lemma_status_bijection, lemma_tokens_plain, lemma_type_bijection, status_of_token,
    status_token, type_of_token, type_token, views, Transaction, TransactionView,
};

verus! {

/// Codec of the CSV layout: a header line, then one line of eight
/// comma-separated fields per record, the description in double quotes.
pub struct CsvFormat;

/// The header line that encoding writes (decoding skips the first line unread).
pub open spec fn csv_header() -> Seq<char> {
    "TX_ID,TX_TYPE,FROM_USER_ID,TO_USER_ID,AMOUNT,TIMESTAMP,STATUS,DESCRIPTION"@
}

/// The reason given for a line that does not hold eight fields.
pub open spec fn field_count_reason() -> Seq<char> {
    "a CSV line must hold 8 comma-separated fields"@
}

/// The fields of a line, each present.
pub open spec fn present(f: Seq<Seq<char>>) -> Seq<Option<Seq<char>>> {
    f.map_values(|x: Seq<char>| Some(x))
}

/// The transaction of one data line, or the failure met while reading it.
pub open spec fn csv_record(line: Seq<char>) -> Result<TransactionView, ErrorView> {
    let f = split_commas(line);
    if f.len() != FIELD_COUNT {
        Err(ErrorView::InvalidFormat(field_count_reason()))
    } else {
        record_from_values(present(f))
    }
}

/// The transactions of the lines from index `i` on; blank lines are skipped.
pub open spec fn csv_rows(ls: Seq<Seq<char>>, i: int) -> Result<Seq<TransactionView>, ErrorView>
    decreases ls.len() - i,
{
    if i < 0 || i >= ls.len() {
        Ok(seq![])
    } else if trim(ls[i]).len() == 0 {
        csv_rows(ls, i + 1)
    } else {
        match csv_record(trim(ls[i])) {
            Ok(t) => prepend(seq![t], csv_rows(ls, i + 1)),
            Err(e) => Err(e),
        }
    }
}

/// What decoding the whole of `b` gives: the bytes up to the first line feed
/// are the header line, skipped unread; the rest must be UTF-8 text.
pub open spec fn decode_csv(b: Seq<u8>) -> Result<Seq<TransactionView>, ErrorView> {
    let n = newline_from(b, 0);
    if n >= b.len() {
        Ok(seq![])
    } else if !valid_utf8(b.subrange(n + 1, b.len() as int)) {
        Err(ErrorView::Utf8)
    } else {
        csv_rows(lines(decode_utf8(b.subrange(n + 1, b.len() as int))), 0)
    }
}

/// The index of the first line feed byte in `b` at or after `i`, or the length of `b`.
pub open spec fn newline_from(b: Seq<u8>, i: int) -> int
    decreases b.len() - i,
{
    if i < 0 || i >= b.len() {
        b.len() as int
    } else if b[i] == 10 {
        i
    } else {
        newline_from(b, i + 1)
    }
}

/// Whether `b` holds no line feed byte.
pub open spec fn lacks_newline(b: Seq<u8>) -> bool {
    forall|i: int| 0 <= i < b.len() ==> b[i] != 10
}

/// The line of one transaction, without its line feed: its fields joined by commas.
pub open spec fn csv_line(t: TransactionView) -> Seq<char> {
    join_commas(csv_fields(t))
}

/// The lines of transactions, each ended by a line feed.
pub open spec fn csv_body(s: Seq<TransactionView>) -> Seq<char>
    decreases s.len(),
{
    if s.len() == 0 {
        seq![]
    } else {
        csv_line(s[0]) + seq!['\n'] + csv_body(s.drop_first())
    }
}

/// The whole text that encoding writes.
pub open spec fn csv_text(s: Seq<TransactionView>) -> Seq<char> {
    csv_header() + seq!['\n'] + csv_body(s)
}

/// Adding a transaction at the end adds its line at the end.
pub proof fn lemma_csv_body_push(s: Seq<TransactionView>, t: TransactionView)
    ensures
        csv_body(s.push(t)) == csv_body(s) + csv_line(t) + seq!['\n'],
    decreases s.len(),
{
    if s.len() == 0 {
        assert(s.push(t).drop_first() =~= Seq::<TransactionView>::empty());
        assert(csv_body(s.push(t)) =~= csv_line(t) + seq!['\n'] + csv_body(Seq::<TransactionView>::empty()));
        assert(csv_body(s) + csv_line(t) + seq!['\n'] =~= csv_line(t) + seq!['\n']);
    } else {
        lemma_csv_body_push(s.drop_first(), t);
        assert(s.push(t).drop_first() =~= s.drop_first().push(t));
        assert(csv_body(s.push(t)) =~= csv_line(s[0]) + seq!['\n'] + (csv_body(s.drop_first())
            + csv_line(t) + seq!['\n']));
    }
}

impl CsvFormat {
    /// The eight fields of `t`, in column order.
    fn fields_of(t: &Transaction) -> (r: Vec<Vec<char>>)
        ensures
            r@.len() == FIELD_COUNT,
            seqs(r@) == csv_fields(t@),
    {
        let mut r: Vec<Vec<char>> = Vec::new();
        let mut f: Vec<char> = Vec::new();
        push_decimal(&mut f, t.tx_id);
        let ghost g0 = f@;
        r.push(f);
        let mut f: Vec<char> = Vec::new();
        push_str(&mut f, t.tx_type.token());
        let ghost g1 = f@;
        r.push(f);
        let mut f: Vec<char> = Vec::new();
        push_decimal(&mut f, t.from_user_id);
        let ghost g2 = f@;
        r.push(f);
        let mut f: Vec<char> = Vec::new();
        push_decimal(&mut f, t.to_user_id);
        let ghost g3 = f@;
        r.push(f);
        let mut f: Vec<char> = Vec::new();
        if t.amount < 0 {
            f.push('-');
            let m: u64 = if t.amount == i64::MIN {
                0x8000_0000_0000_0000u64
            } else {
                (-t.amount) as u64
            };
            push_decimal(&mut f, m);
        } else {
            push_decimal(&mut f, t.amount as u64);
        }
        assert(f@ =~= signed_decimal(t.amount as int));
        let ghost g4 = f@;
        r.push(f);
        let mut f: Vec<char> = Vec::new();
        push_decimal(&mut f, t.timestamp);
        let ghost g5 = f@;
        r.push(f);
        let mut f: Vec<char> = Vec::new();
        push_str(&mut f, t.status.token());
        let ghost g6 = f@;
        r.push(f);
        let mut f: Vec<char> = Vec::new();
        f.push('"');
        push_str(&mut f, t.description.as_str());
        f.push('"');
        let ghost g7 = f@;
        r.push(f);
        assert(seqs(r@) =~= seq![g0, g1, g2, g3, g4, g5, g6, g7]);
        assert(g7 =~= seq!['"'] + t.description@ + seq!['"']);
        assert(seqs(r@) =~= csv_fields(t@));
        r
    }

    /// Appends the line of `t`, without its line feed, to `out`.
    fn push_line(out: &mut Vec<char>, t: &Transaction)
        ensures
            final(out)@ == old(out)@ + csv_line(t@),
    {
        let ghost start = out@;
        let fields = Self::fields_of(t);
        let ghost f = seqs(fields@);
        let mut k: usize = 0;
        while k < fields.len()
            invariant
                fields@.len() == FIELD_COUNT,
                f == seqs(fields@),
                k <= FIELD_COUNT,
                out@ == start + join_commas(f.take(k as int)),
            decreases FIELD_COUNT - k,
        {
            let ghost before = out@;
            if k > 0 {
                out.push(',');
            }
            let field = &fields[k];
            let mut j: usize = 0;
            while j < field.len()
                invariant
                    j <= field@.len(),
                    out@ == before + (if k > 0 {
                        seq![',']
                    } else {
                        seq![]
                    }) + field@.take(j as int),
                decreases field@.len() - j,
            {
                out.push(field[j]);
                assert(field@.take(j + 1) =~= field@.take(j as int).push(field@[j as int]));
                j = j + 1;
            }
            proof {
                assert(field@.take(j as int) =~= field@);
                assert(f[k as int] == field@);
                assert(f.take(k + 1) =~= f.take(k as int).push(f[k as int]));
                if k > 0 {
                    lemma_join_push(f.take(k as int), f[k as int]);
                    assert(out@ =~= start + join_commas(f.take(k + 1)));
                } else {
                    assert(f.take(1) =~= seq![f[0]]);
                    assert(out@ =~= start + join_commas(f.take(k + 1)));
                }
            }
            k = k + 1;
        }
        assert(f.take(FIELD_COUNT as int) =~= f);
    }

    /// The line of `t`, without its line feed.
    pub fn format_transaction(t: &Transaction) -> (r: String)
        ensures
            r@ == csv_line(t@),
    {
        let mut cs: Vec<char> = Vec::new();
        Self::push_line(&mut cs, t);
        assert(cs@ =~= csv_line(t@));
        assert(cs@.subrange(0, cs@.len() as int) =~= cs@);
        chars_to_string(&cs, 0, cs.len())
    }

    fn parse_line_chars(line: &Vec<char>) -> (r: Result<Transaction, ParseError>)
        ensures
            r matches Ok(t) ==> csv_record(line@) == Ok::<TransactionView, ErrorView>(t@),
            r matches Err(e) ==> csv_record(line@) == Err::<TransactionView, ErrorView>(e@),
    {
        let mut parts = split_pieces(line, ',', false);
        if parts.len() != FIELD_COUNT {
            return Err(
                ParseError::InvalidFormat(
                    String::from_str("a CSV line must hold 8 comma-separated fields"),
                ),
            );
        }
        let ghost fields = seqs(parts@);
        let mut vals: Vec<Option<Vec<char>>> = Vec::new();
        let mut k: usize = 0;
        while k < FIELD_COUNT
            invariant
                k <= FIELD_COUNT,
                fields.len() == FIELD_COUNT,
                parts@.len() == FIELD_COUNT - k,
                seqs(parts@) == fields.skip(k as int),
                opt_seqs(vals@) == present(fields.take(k as int)),
            decreases FIELD_COUNT - k,
        {
            let ghost before = opt_seqs(vals@);
            let ghost old_parts = parts@;
            let p = parts.remove(0);
            assert(p@ == fields[k as int]) by {
                assert(seqs(old_parts)[0] == fields.skip(k as int)[0]);
            }
            assert(seqs(parts@) =~= seqs(old_parts).drop_first());
            vals.push(Some(p));
            assert(seqs(parts@) =~= fields.skip(k + 1));
            assert(opt_seqs(vals@) =~= before.push(Some(fields[k as int])));
            assert(present(fields.take(k + 1)) =~= present(fields.take(k as int)).push(
                Some(fields[k as int]),
            ));
            k = k + 1;
        }
        assert(fields.take(FIELD_COUNT as int) =~= fields);
        transaction_from_values(&vals)
    }

    /// Reads one data line: eight comma-separated fields in the fixed column order.
    pub fn parse_csv_line(line: &str) -> (r: Result<Transaction, ParseError>)
        ensures
            r matches Ok(t) ==> csv_record(line@) == Ok::<TransactionView, ErrorView>(t@),
            r matches Err(e) ==> csv_record(line@) == Err::<TransactionView, ErrorView>(e@),
    {
        let cs = chars_of(line);
        Self::parse_line_chars(&cs)
    }

    /// Decodes `data`: the first line is skipped unread as the header, blank
    /// lines are skipped, and every other line is one record.
    pub fn read_from(&self, data: &[u8]) -> (r: Result<Vec<Transaction>, ParseError>)
        ensures
            r matches Ok(v) ==> decode_csv(data@) == Ok::<Seq<TransactionView>, ErrorView>(
                views(v@),
            ),
            r matches Err(e) ==> decode_csv(data@) == Err::<Seq<TransactionView>, ErrorView>(e@),
    {
        let mut n: usize = 0;
        while n < data.len() && data[n] != 10u8
            invariant
                n <= data@.len(),
                newline_from(data@, n as int) == newline_from(data@, 0),
            decreases data@.len() - n,
        {
            n = n + 1;
        }
        let mut out: Vec<Transaction> = Vec::new();
        if n >= data.len() {
            assert(views(out@) =~= Seq::<TransactionView>::empty());
            return Ok(out);
        }
        let text = match utf8_string(data, n + 1, data.len()) {
            Some(s) => s,
            None => {
                return Err(ParseError::Utf8);
            },
        };
        let cs = chars_of(text.as_str());
        let ls = split_pieces(&cs, '\n', true);
        let ghost all = seqs(ls@);
        let mut i: usize = 0;
        assert(views(out@) + csv_rows(all, 0)->Ok_0 =~= csv_rows(all, 0)->Ok_0);
        while i < ls.len()
            invariant
                i <= ls@.len(),
                all == seqs(ls@),
                all == lines(cs@),
                decode_csv(data@) == prepend(views(out@), csv_rows(all, i as int)),
            decreases ls@.len() - i,
        {
            let line = trim_chars(&ls[i], false);
            if line.len() > 0 {
                let t = Self::parse_line_chars(&line)?;
                let ghost before = views(out@);
                out.push(t);
                proof {
                    assert(views(out@) =~= before + seq![t@]);
                    match csv_rows(all, i + 1) {
                        Ok(s) => {
                            assert(before + (seq![t@] + s) =~= (before + seq![t@]) + s);
                        },
                        Err(_) => {},
                    }
                }
            }
            i = i + 1;
        }
        assert(views(out@) + seq![] =~= views(out@));
        Ok(out)
    }

    /// Appends the header line and one line per transaction, in order, to `out`.
    pub fn write_to(&self, out: &mut Vec<u8>, transactions: &[Transaction]) -> (r: Result<
        (),
        ParseError,
    >)
        ensures
            r is Ok,
            final(out)@ == old(out)@ + encode_utf8(csv_text(views(transactions@))),
    {
        let mut text: Vec<char> = Vec::new();
        push_str(&mut text, "TX_ID,TX_TYPE,FROM_USER_ID,TO_USER_ID,AMOUNT,TIMESTAMP,STATUS,DESCRIPTION");
        text.push('\n');
        let mut i: usize = 0;
        while i < transactions.len()
            invariant
                i <= transactions@.len(),
                text@ == csv_header() + seq!['\n'] + csv_body(views(transactions@).take(i as int)),
            decreases transactions@.len() - i,
        {
            Self::push_line(&mut text, &transactions[i]);
            text.push('\n');
            proof {
                lemma_csv_body_push(views(transactions@).take(i as int), transactions@[i as int]@);
                assert(views(transactions@).take(i + 1) =~= views(transactions@).take(i as int).push(
                    transactions@[i as int]@,
                ));
            }
            i = i + 1;
        }
        assert(views(transactions@).take(i as int) =~= views(transactions@));
        append_utf8(out, &text);
        Ok(())
    }
}

/// Whether a description survives the CSV layout unchanged: no comma, no line
/// feed, and no double quote at either end.
pub open spec fn csv_safe(d: Seq<char>) -> bool {
    lacks(d, ',') && lacks(d, '\n') && (d.len() == 0 || (d[0] != '"' && d.last() != '"'))
}

/// The lines of a sequence of transactions, in order.
pub open spec fn csv_lines(s: Seq<TransactionView>) -> Seq<Seq<char>> {
    Seq::new(s.len(), |i: int| csv_line(s[i]))
}

/// The description between quotes reads back as itself.
pub proof fn lemma_unquote(d: Seq<char>)
    requires
        d.len() == 0 || (d[0] != '"' && d.last() != '"'),
    ensures
        trim_quotes(seq!['"'] + d + seq!['"']) == d,
{
    assert(seq!['"'] + d + seq!['"'] =~= seq!['"'] + (d + seq!['"']));
    lemma_trim_lead('"', d + seq!['"'], true);
    if d.len() == 0 {
        assert(d + seq!['"'] =~= seq!['"'] + d);
        lemma_trim_lead('"', d, true);
    } else {
        lemma_trim_trail(d, '"', true);
        lemma_trim_none(d, true);
    }
}

/// The eight fields of the line of a transaction, in column order.
pub open spec fn csv_fields(t: TransactionView) -> Seq<Seq<char>> {
    seq![
        decimal(t.tx_id as nat),
        type_token(t.tx_type),
        decimal(t.from_user_id as nat),
        decimal(t.to_user_id as nat),
        signed_decimal(t.amount as int),
        decimal(t.timestamp as nat),
        status_token(t.status),
        seq!['"'] + t.description + seq!['"'],
    ]
}

/// No field of a transaction with a safe description holds a comma or a line
/// feed; all but the last are plain.
proof fn lemma_csv_fields_plain(t: TransactionView)
    requires
        csv_safe(t.description),
    ensures
        forall|k: int| 0 <= k < 7 ==> plain(#[trigger] csv_fields(t)[k]),
        forall|k: int|
            0 <= k < FIELD_COUNT ==> lacks(#[trigger] csv_fields(t)[k], ',') && lacks(
                csv_fields(t)[k],
                '\n',
            ),
{
    let f = csv_fields(t);
    lemma_decimal_plain(t.tx_id as nat, t.amount as int);
    lemma_decimal_plain(t.from_user_id as nat, 0);
    lemma_decimal_plain(t.to_user_id as nat, 0);
    lemma_decimal_plain(t.timestamp as nat, 0);
    lemma_tokens_plain(t.tx_type, t.status);
    assert forall|k: int| 0 <= k < 7 implies plain(#[trigger] f[k]) by {}
    let q = seq!['"'];
    let d = t.description;
    assert(lacks(q, ',') && lacks(q, '\n'));
    lemma_lacks_concat(q, d, ',');
    lemma_lacks_concat(q + d, q, ',');
    lemma_lacks_concat(q, d, '\n');
    lemma_lacks_concat(q + d, q, '\n');
    assert forall|k: int| 0 <= k < FIELD_COUNT implies lacks(#[trigger] f[k], ',') && lacks(
        f[k],
        '\n',
    ) by {
        if k < 7 {
            lemma_plain(f[k]);
        }
    }
}

/// Fields joined by commas.
pub open spec fn join_commas(f: Seq<Seq<char>>) -> Seq<char>
    decreases f.len(),
{
    if f.len() <= 1 {
        if f.len() == 1 {
            f[0]
        } else {
            seq![]
        }
    } else {
        f[0] + seq![','] + join_commas(f.drop_first())
    }
}

/// Fields without commas, joined by commas, split back into the fields; a
/// character that none holds, the join does not hold.
pub proof fn lemma_join_commas(f: Seq<Seq<char>>, c: char)
    requires
        f.len() >= 1,
        c != ',',
        forall|k: int| 0 <= k < f.len() ==> lacks(#[trigger] f[k], ','),
        forall|k: int| 0 <= k < f.len() ==> lacks(#[trigger] f[k], c),
    ensures
        split_commas(join_commas(f)) == f,
        lacks(join_commas(f), c),
    decreases f.len(),
{
    if f.len() == 1 {
        lemma_pieces_single(f[0], ',', false, 0, 0);
        assert(f[0].subrange(0, f[0].len() as int) =~= f[0]);
        assert(f =~= seq![f[0]]);
    } else {
        let rest = f.drop_first();
        assert forall|k: int| 0 <= k < rest.len() implies lacks(#[trigger] rest[k], ',') && lacks(
            rest[k],
            c,
        ) by {
            assert(rest[k] == f[k + 1]);
        }
        lemma_join_commas(rest, c);
        assert(lacks(f[0], ','));
        lemma_pieces_cons(f[0], join_commas(rest), ',', false);
        assert(f =~= seq![f[0]] + rest);
        assert(lacks(seq![','], c));
        lemma_lacks_concat(f[0], seq![','], c);
        lemma_lacks_concat(f[0] + seq![','], join_commas(rest), c);
    }
}

/// Joining one more field adds a comma and the field at the end.
pub proof fn lemma_join_push(f: Seq<Seq<char>>, x: Seq<char>)
    requires
        f.len() >= 1,
    ensures
        join_commas(f.push(x)) == join_commas(f) + seq![','] + x,
    decreases f.len(),
{
    if f.len() == 1 {
        assert(f.push(x).drop_first() =~= seq![x]);
        assert(f.push(x)[0] == f[0]);
        assert(seq![x][0] == x);
        assert(join_commas(seq![x]) == x);
        assert(join_commas(f) == f[0]);
    } else {
        lemma_join_push(f.drop_first(), x);
        assert(f.push(x).drop_first() =~= f.drop_first().push(x));
        assert(f.push(x)[0] == f[0]);
        assert(join_commas(f.push(x)) =~= f[0] + seq![','] + (join_commas(f.drop_first()) + seq![
            ',',
        ] + x));
    }
}

/// The line of a transaction with a safe description splits into its fields.
proof fn lemma_csv_split(t: TransactionView)
    requires
        csv_safe(t.description),
    ensures
        split_commas(csv_line(t)) == csv_fields(t),
        lacks(csv_line(t), '\n'),
{
    lemma_csv_fields_plain(t);
    lemma_join_commas(csv_fields(t), '\n');
}

/// The fields of a transaction with a safe description read back as the transaction.
proof fn lemma_csv_fields_record(t: TransactionView)
    requires
        csv_safe(t.description),
    ensures
        record_from_values(present(csv_fields(t))) == Ok::<TransactionView, ErrorView>(t),
{
    let f = csv_fields(t);
    lemma_parse_decimal_u64(t.tx_id);
    lemma_parse_decimal_u64(t.from_user_id);
    lemma_parse_decimal_u64(t.to_user_id);
    lemma_parse_decimal_i64(t.amount);
    lemma_parse_decimal_u64(t.timestamp);
    lemma_type_bijection(t.tx_type, seq![], 0);
    lemma_status_bijection(t.status, seq![], 0);
    lemma_unquote(t.description);
    let vals = present(f);
    assert(vals[0] == Some(f[0]) && vals[1] == Some(f[1]) && vals[2] == Some(f[2]) && vals[3]
        == Some(f[3]));
    assert(vals[4] == Some(f[4]) && vals[5] == Some(f[5]) && vals[6] == Some(f[6]) && vals[7]
        == Some(f[7]));
}

/// The line of a transaction starts with a digit and ends with a double quote.
proof fn lemma_csv_line_ends(t: TransactionView)
    ensures
        csv_line(t).len() > 0,
        !is_whitespace(csv_line(t)[0]),
        csv_line(t).last() == '"',
{
    let f = csv_fields(t);
    lemma_decimal(t.tx_id as nat);
    lemma_decimal_plain(t.tx_id as nat, 0);
    assert(is_plain(f[0][0]));
    let rest = f.drop_first();
    assert(csv_line(t) == f[0] + seq![','] + join_commas(rest));
    assert(csv_line(t)[0] == f[0][0]);
    assert(f.last() == seq!['"'] + t.description + seq!['"']);
    lemma_join_last(f);
}

/// The join of fields ends as the last field ends, when that one is not empty.
proof fn lemma_join_last(f: Seq<Seq<char>>)
    requires
        f.len() >= 1,
        f.last().len() > 0,
    ensures
        join_commas(f).len() > 0,
        join_commas(f).last() == f.last().last(),
    decreases f.len(),
{
    if f.len() > 1 {
        assert(f.drop_first().last() == f.last());
        lemma_join_last(f.drop_first());
    }
}

/// The line of a transaction with a safe description holds no line feed, is
/// not changed by trimming, and reads back as the transaction.
pub proof fn lemma_csv_line(t: TransactionView)
    requires
        csv_safe(t.description),
    ensures
        lacks(csv_line(t), '\n'),
        trim(csv_line(t)) == csv_line(t),
        trim(csv_line(t)).len() > 0,
        csv_record(csv_line(t)) == Ok::<TransactionView, ErrorView>(t),
{
    lemma_csv_split(t);
    lemma_csv_fields_record(t);
    lemma_decimal(t.tx_id as nat);
    lemma_decimal_plain(t.tx_id as nat, 0);
    let line = csv_line(t);
    lemma_csv_line_ends(t);
    lemma_trim_none(line, false);
}

/// The lines of the body are the lines of the transactions.
pub proof fn lemma_csv_body_lines(s: Seq<TransactionView>)
    requires
        forall|i: int| 0 <= i < s.len() ==> csv_safe(#[trigger] s[i].description),
    ensures
        lines(csv_body(s)) == csv_lines(s),
    decreases s.len(),
{
    if s.len() == 0 {
        assert(csv_lines(s) =~= Seq::<Seq<char>>::empty());
    } else {
        assert(csv_safe(s[0].description));
        lemma_csv_line(s[0]);
        assert forall|i: int| 0 <= i < s.drop_first().len() implies csv_safe(
            #[trigger] s.drop_first()[i].description,
        ) by {
            assert(s.drop_first()[i] == s[i + 1]);
        }
        lemma_csv_body_lines(s.drop_first());
        lemma_pieces_cons(csv_line(s[0]), csv_body(s.drop_first()), '\n', true);
        assert(csv_lines(s) =~= seq![csv_line(s[0])] + csv_lines(s.drop_first()));
    }
}

/// Reading rows after a prefix of lines is reading the rows of what follows it.
pub proof fn lemma_csv_rows_shift(p: Seq<Seq<char>>, ls: Seq<Seq<char>>, k: int)
    requires
        0 <= k,
    ensures
        csv_rows(p + ls, p.len() + k) == csv_rows(ls, k),
    decreases ls.len() - k,
{
    if k < ls.len() {
        assert((p + ls)[p.len() + k] == ls[k]);
        lemma_csv_rows_shift(p, ls, k + 1);
    }
}

/// The rows of the lines of safe transactions are the transactions.
pub proof fn lemma_csv_rows(s: Seq<TransactionView>)
    requires
        forall|i: int| 0 <= i < s.len() ==> csv_safe(#[trigger] s[i].description),
    ensures
        csv_rows(csv_lines(s), 0) == Ok::<Seq<TransactionView>, ErrorView>(s),
    decreases s.len(),
{
    if s.len() == 0 {
        assert(s =~= Seq::<TransactionView>::empty());
    } else {
        let rest = s.drop_first();
        assert(csv_safe(s[0].description));
        lemma_csv_line(s[0]);
        assert forall|i: int| 0 <= i < rest.len() implies csv_safe(#[trigger] rest[i].description) by {
            assert(rest[i] == s[i + 1]);
        }
        lemma_csv_rows(rest);
        let ls = csv_lines(s);
        assert(ls =~= seq![csv_line(s[0])] + csv_lines(rest));
        lemma_csv_rows_shift(seq![csv_line(s[0])], csv_lines(rest), 0);
        assert(ls[0] == csv_line(s[0]));
        assert(seq![s[0]] + rest =~= s);
    }
}

/// Decoding what encoding a sequence of transactions wrote gives the sequence
/// back, when no description holds a comma or a line feed or starts or ends
/// with a double quote.
pub proof fn lemma_csv_round_trip(s: Seq<TransactionView>)
    requires
        forall|i: int| 0 <= i < s.len() ==> csv_safe(#[trigger] s[i].description),
    ensures
        decode_csv(encode_utf8(csv_text(s))) == Ok::<Seq<TransactionView>, ErrorView>(s),
{
    let body = csv_body(s);
    reveal_strlit("TX_ID,TX_TYPE,FROM_USER_ID,TO_USER_ID,AMOUNT,TIMESTAMP,STATUS,DESCRIPTION");
    let h = csv_header();
    assert(is_ascii_chars(h)) by {
        assert forall|i: int| 0 <= i < h.len() implies '\0' <= #[trigger] h[i] <= '\u{7f}' by {}
    }
    is_ascii_chars_encode_utf8(h);
    let hb = encode_utf8(h);
    assert(lacks_newline(hb)) by {
        assert forall|i: int| 0 <= i < hb.len() implies hb[i] != 10 by {
            assert(h[i] as u8 == hb[i]);
        }
    }
    lemma_encode_utf8_concat(h, seq!['\n']);
    lemma_encode_utf8_concat(h + seq!['\n'], body);
    lemma_encode_ascii('\n');
    assert(encode_utf8(csv_text(s)) == hb + seq![10u8] + encode_utf8(body));
    lemma_csv_decode_header(hb, encode_utf8(body));
    encode_utf8_valid_utf8(body);
    encode_utf8_decode_utf8(body);
    lemma_csv_body_lines(s);
    lemma_csv_rows(s);
}

/// The header line is skipped unread: whatever its bytes, decoding goes on
/// with the text after its line feed.
pub proof fn lemma_csv_decode_header(h: Seq<u8>, rest: Seq<u8>)
    requires
        lacks_newline(h),
    ensures
        decode_csv(h + seq![10u8] + rest) == if valid_utf8(rest) {
            csv_rows(lines(decode_utf8(rest)), 0)
        } else {
            Err(ErrorView::Utf8)
        },
{
    let b = h + seq![10u8] + rest;
    assert forall|j: int| 0 <= j <= h.len() implies newline_from(b, j) == h.len() by {
        lemma_newline_scan(b, j, h.len() as int);
    }
    assert(b.subrange(h.len() as int + 1, b.len() as int) =~= rest);
}

/// The search for a line feed byte skips a stretch without one.
proof fn lemma_newline_scan(b: Seq<u8>, i: int, e: int)
    requires
        0 <= i <= e < b.len(),
        b[e] == 10,
        forall|j: int| i <= j < e ==> b[j] != 10,
    ensures
        newline_from(b, i) == e,
    decreases e - i,
{
    if i < e {
        lemma_newline_scan(b, i + 1, e);
    }
}

/// Reading rows fails with `InvalidFormat` at a non-blank line that does not
/// split into eight fields, when every non-blank line before it is a record:
/// the earlier rows are not returned.
pub proof fn lemma_csv_rows_wrong_field_count(ls: Seq<Seq<char>>, i: int, k: int)
    requires
        0 <= i <= k < ls.len(),
        trim(ls[k]).len() > 0,
        split_commas(trim(ls[k])).len() != FIELD_COUNT,
        forall|j: int|
            i <= j < k ==> trim(#[trigger] ls[j]).len() == 0 || csv_record(trim(ls[j])) is Ok,
    ensures
        csv_rows(ls, i) == Err::<Seq<TransactionView>, ErrorView>(
            ErrorView::InvalidFormat(field_count_reason()),
        ),
    decreases k - i,
{
    if i < k {
        lemma_csv_rows_wrong_field_count(ls, i + 1, k);
    }
}

/// Input whose data lines, after any header line, hold a line that does not
/// split into eight fields, with only records or blank lines before it, fails
/// with `InvalidFormat`.
pub proof fn lemma_csv_wrong_field_count(h: Seq<u8>, rest: Seq<u8>, k: int)
    requires
        lacks_newline(h),
        valid_utf8(rest),
        0 <= k < lines(decode_utf8(rest)).len(),
        trim(lines(decode_utf8(rest))[k]).len() > 0,
        split_commas(trim(lines(decode_utf8(rest))[k])).len() != FIELD_COUNT,
        forall|j: int|
            0 <= j < k ==> trim(#[trigger] lines(decode_utf8(rest))[j]).len() == 0 || csv_record(
                trim(lines(decode_utf8(rest))[j]),
            ) is Ok,
    ensures
        decode_csv(h + seq![10u8] + rest) == Err::<Seq<TransactionView>, ErrorView>(
            ErrorView::InvalidFormat(field_count_reason()),
        ),
{
    lemma_csv_decode_header(h, rest);
    lemma_csv_rows_wrong_field_count(lines(decode_utf8(rest)), 0, k);
}

/// A line whose identifier reads but whose type token names no type fails,
/// naming that token.
pub proof fn lemma_csv_bad_type(line: Seq<char>)
    requires
        split_commas(line).len() == FIELD_COUNT,
        parse_u64_spec(split_commas(line)[0]) is Some,
        type_of_token(split_commas(line)[1]) is None,
    ensures
        csv_record(line) == Err::<TransactionView, ErrorView>(
            ErrorView::InvalidTransactionType(split_commas(line)[1]),
        ),
{
    let f = split_commas(line);
    assert(present(f)[0] == Some(f[0]));
    assert(present(f)[1] == Some(f[1]));
}

/// A line whose first six fields read but whose status token names no status
/// fails, naming that token.
pub proof fn lemma_csv_bad_status(line: Seq<char>)
    requires
        split_commas(line).len() == FIELD_COUNT,
        parse_u64_spec(split_commas(line)[0]) is Some,
        type_of_token(split_commas(line)[1]) is Some,
        parse_u64_spec(split_commas(line)[2]) is Some,
        parse_u64_spec(split_commas(line)[3]) is Some,
        parse_i64_spec(split_commas(line)[4]) is Some,
        parse_u64_spec(split_commas(line)[5]) is Some,
        status_of_token(split_commas(line)[6]) is None,
    ensures
        csv_record(line) == Err::<TransactionView, ErrorView>(
            ErrorView::InvalidTransactionStatus(split_commas(line)[6]),
        ),
{
    let f = split_commas(line);
    let v = present(f);
    assert(v[0] == Some(f[0]) && v[1] == Some(f[1]) && v[2] == Some(f[2]) && v[3] == Some(f[3]));
    assert(v[4] == Some(f[4]) && v[5] == Some(f[5]) && v[6] == Some(f[6]));
}

} // verus!
