use vstd::prelude::*;
use vstd::utf8::*;

use crate::binary::prepend;
use crate::decimal::{
    decimal, lemma_decimal, parse_i64_spec, parse_u64_spec, lemma_decimal_plain, lemma_parse_decimal_i64, lemma_parse_decimal_u64,
    push_decimal, signed_decimal,
};
use crate::error::{ErrorView, ParseError};
use crate::record::{
    key, key_name, lemma_key_plain, lemma_keys_distinct, opt_seqs, record_from_values,
    transaction_from_values, FIELD_COUNT,
};
use crate::scan::{
    append_utf8, chars_of, copy_range, find_char, find_from, is_plain, is_whitespace, lacks,
    lemma_find_scan, lemma_lacks_concat, lemma_pieces_cons, lemma_plain, lemma_trim_lead,
    lemma_trim_none, lemma_trim_trail, lines, plain, push_str, seqs, split_pieces, trim, trim_chars,
    utf8_string,
};
use crate::transaction::{
    chars_equal, lemma_status_bijection, lemma_tokens_plain, lemma_type_bijection,
    status_of_token, status_token, type_of_token, type_token, views, Transaction, TransactionView,
};

verus! {

/// Codec of the text layout: blocks of `KEY: value` lines separated by blank
/// lines; lines that start with `#` are comments.
pub struct TextFormat;

/// The key and the value of a field line; `None` for a blank line, a comment,
/// or a line without a colon. The key ends at the first colon; both are trimmed.
pub open spec fn field_entry(line: Seq<char>) -> Option<(Seq<char>, Seq<char>)> {
    let t = trim(line);
    if t.len() == 0 || t[0] == '#' {
        None
    } else {
        let c = find_from(t, ':', 0);
        if c >= t.len() {
            None
        } else {
            Some((trim(t.subrange(0, c)), trim(t.subrange(c + 1, t.len() as int))))
        }
    }
}

/// The value of `key` in a block: that of its last field line.
pub open spec fn lookup(block: Seq<Seq<char>>, key: Seq<char>) -> Option<Seq<char>>
    decreases block.len(),
{
    if block.len() == 0 {
        None
    } else {
        match field_entry(block.last()) {
            Some((k, v)) => if k == key {
                Some(v)
            } else {
                lookup(block.drop_last(), key)
            },
            None => lookup(block.drop_last(), key),
        }
    }
}

/// The values of the eight keys in a block, in column order.
pub open spec fn block_values(block: Seq<Seq<char>>) -> Seq<Option<Seq<char>>> {
    Seq::new(FIELD_COUNT as nat, |i: int| lookup(block, key_name(i)))
}

/// The transaction of a block of lines, or the failure met while reading it.
pub open spec fn parse_block(block: Seq<Seq<char>>) -> Result<TransactionView, ErrorView> {
    record_from_values(block_values(block))
}

/// The transactions of the lines from index `i` on, where `block` holds the
/// lines gathered since the last blank line.
pub open spec fn text_records(ls: Seq<Seq<char>>, i: int, block: Seq<Seq<char>>) -> Result<
    Seq<TransactionView>,
    ErrorView,
>
    decreases ls.len() - i,
{
    if i < 0 || i >= ls.len() {
        if block.len() == 0 {
            Ok(seq![])
        } else {
            match parse_block(block) {
                Ok(t) => Ok(seq![t]),
                Err(e) => Err(e),
            }
        }
    } else if trim(ls[i]).len() == 0 {
        if block.len() == 0 {
            text_records(ls, i + 1, block)
        } else {
            match parse_block(block) {
                Ok(t) => prepend(seq![t], text_records(ls, i + 1, seq![])),
                Err(e) => Err(e),
            }
        }
    } else {
        text_records(ls, i + 1, block.push(ls[i]))
    }
}

/// What decoding the whole of `b` gives.
pub open spec fn decode_text(b: Seq<u8>) -> Result<Seq<TransactionView>, ErrorView> {
    if !valid_utf8(b) {
        Err(ErrorView::Utf8)
    } else {
        text_records(lines(decode_utf8(b)), 0, seq![])
    }
}

/// The field line of column `k` with value `v`, without its line feed.
pub open spec fn entry_line(k: int, v: Seq<char>) -> Seq<char> {
    key_name(k) + seq![':', ' '] + v
}

/// The values of the eight fields of a transaction, in column order.
pub open spec fn record_values(t: TransactionView) -> Seq<Seq<char>> {
    seq![
        decimal(t.tx_id as nat),
        type_token(t.tx_type),
        decimal(t.from_user_id as nat),
        decimal(t.to_user_id as nat),
        signed_decimal(t.amount as int),
        decimal(t.timestamp as nat),
        status_token(t.status),
        t.description,
    ]
}

/// The eight field lines of a transaction, in column order.
pub open spec fn record_lines(t: TransactionView) -> Seq<Seq<char>> {
    Seq::new(FIELD_COUNT as nat, |k: int| entry_line(k, record_values(t)[k]))
}

/// Lines, each followed by a line feed.
pub open spec fn join_lines(ls: Seq<Seq<char>>) -> Seq<char>
    decreases ls.len(),
{
    if ls.len() == 0 {
        seq![]
    } else {
        ls[0] + seq!['\n'] + join_lines(ls.drop_first())
    }
}

/// The eight field lines of a transaction, each with its line feed.
pub open spec fn text_record(t: TransactionView) -> Seq<char> {
    join_lines(record_lines(t))
}

/// Joining one more line adds it and its line feed at the end.
pub proof fn lemma_join_lines_push(ls: Seq<Seq<char>>, x: Seq<char>)
    ensures
        join_lines(ls.push(x)) == join_lines(ls) + x + seq!['\n'],
    decreases ls.len(),
{
    if ls.len() == 0 {
        assert(ls.push(x).drop_first() =~= Seq::<Seq<char>>::empty());
        assert(ls.push(x)[0] == x);
        assert(join_lines(ls.push(x)) =~= x + seq!['\n'] + join_lines(Seq::<Seq<char>>::empty()));
        assert(join_lines(ls) + x + seq!['\n'] =~= x + seq!['\n']);
    } else {
        lemma_join_lines_push(ls.drop_first(), x);
        assert(ls.push(x).drop_first() =~= ls.drop_first().push(x));
        assert(ls.push(x)[0] == ls[0]);
        assert(join_lines(ls.push(x)) =~= ls[0] + seq!['\n'] + (join_lines(ls.drop_first()) + x
            + seq!['\n']));
    }
}

/// The records of transactions, a blank line between two consecutive ones.
pub open spec fn text_body(s: Seq<TransactionView>) -> Seq<char>
    decreases s.len(),
{
    if s.len() == 0 {
        seq![]
    } else if s.len() == 1 {
        text_record(s[0])
    } else {
        text_record(s[0]) + seq!['\n'] + text_body(s.drop_first())
    }
}

/// Adding a transaction at the end adds its record, after a blank line if others precede it.
pub proof fn lemma_text_body_push(s: Seq<TransactionView>, t: TransactionView)
    ensures
        text_body(s.push(t)) == if s.len() == 0 {
            text_record(t)
        } else {
            text_body(s) + seq!['\n'] + text_record(t)
        },
    decreases s.len(),
{
    if s.len() == 0 {
        assert(s.push(t).len() == 1);
        assert(s.push(t)[0] == t);
    } else if s.len() == 1 {
        assert(s.push(t).drop_first() =~= seq![t]);
        assert(s.push(t)[0] == s[0]);
        assert(text_body(seq![t]) == text_record(t));
    } else {
        lemma_text_body_push(s.drop_first(), t);
        assert(s.push(t).drop_first() =~= s.drop_first().push(t));
        assert(text_body(s.push(t)) =~= text_record(s[0]) + seq!['\n'] + (text_body(s.drop_first())
            + seq!['\n'] + text_record(t)));
    }
}

/// The entries of the lines of a block, in order.
pub open spec fn entries_view(v: Seq<Option<(Vec<char>, Vec<char>)>>) -> Seq<
    Option<(Seq<char>, Seq<char>)>,
> {
    v.map_values(|x: Option<(Vec<char>, Vec<char>)>| match x {
        Some((k, w)) => Some((k@, w@)),
        None => None,
    })
}

impl TextFormat {
    /// The key and the value of a field line (see [`field_entry`]).
    fn entry_of(line: &Vec<char>) -> (r: Option<(Vec<char>, Vec<char>)>)
        ensures
            r matches Some((k, v)) ==> field_entry(line@) == Some((k@, v@)),
            r is None ==> field_entry(line@) is None,
    {
        let t = trim_chars(line, false);
        if t.len() == 0 || t[0] == '#' {
            return None;
        }
        let c = find_char(&t, ':', 0);
        if c >= t.len() {
            return None;
        }
        let k = copy_range(&t, 0, c);
        let v = copy_range(&t, c + 1, t.len());
        Some((trim_chars(&k, false), trim_chars(&v, false)))
    }

    /// The value of the last entry whose key is `key`.
    fn lookup_entries(
        entries: &Vec<Option<(Vec<char>, Vec<char>)>>,
        key: &str,
        block: Ghost<Seq<Seq<char>>>,
    ) -> (r: Option<Vec<char>>)
        requires
            entries@.len() == block@.len(),
            forall|j: int|
                0 <= j < block@.len() ==> #[trigger] entries_view(entries@)[j] == field_entry(
                    block@[j],
                ),
        ensures
            r matches Some(v) ==> lookup(block@, key@) == Some(v@),
            r is None ==> lookup(block@, key@) is None,
    {
        let mut j: usize = entries.len();
        assert(block@.take(j as int) =~= block@);
        while j > 0
            invariant
                j <= entries@.len() == block@.len(),
                forall|m: int|
                    0 <= m < block@.len() ==> #[trigger] entries_view(entries@)[m] == field_entry(
                        block@[m],
                    ),
                lookup(block@, key@) == lookup(block@.take(j as int), key@),
            decreases j,
        {
            let ghost b = block@.take(j as int);
            assert(b.last() == block@[j - 1]);
            assert(b.drop_last() =~= block@.take(j - 1));
            assert(entries_view(entries@)[j - 1] == field_entry(block@[j - 1]));
            match &entries[j - 1] {
                Some((k, v)) => {
                    if chars_equal(k, key) {
                        let w = copy_range(v, 0, v.len());
                        assert(v@.subrange(0, v@.len() as int) =~= v@);
                        return Some(w);
                    }
                },
                None => {},
            }
            j = j - 1;
        }
        None
    }

    /// The transaction of a block given as lines.
    fn parse_block_lines(block: &Vec<Vec<char>>) -> (r: Result<Transaction, ParseError>)
        ensures
            r matches Ok(t) ==> parse_block(seqs(block@)) == Ok::<TransactionView, ErrorView>(t@),
            r matches Err(e) ==> parse_block(seqs(block@)) == Err::<TransactionView, ErrorView>(e@),
    {
        let ghost b = seqs(block@);
        let mut entries: Vec<Option<(Vec<char>, Vec<char>)>> = Vec::new();
        let mut j: usize = 0;
        while j < block.len()
            invariant
                j <= block@.len(),
                b == seqs(block@),
                entries@.len() == j,
                forall|m: int| 0 <= m < j ==> #[trigger] entries_view(entries@)[m] == field_entry(b[m]),
            decreases block@.len() - j,
        {
            let e = Self::entry_of(&block[j]);
            let ghost prev = entries@;
            entries.push(e);
            proof {
                assert forall|m: int| 0 <= m < j + 1 implies #[trigger] entries_view(entries@)[m]
                    == field_entry(b[m]) by {
                    if m < j {
                        assert(entries@[m] == prev[m]);
                        assert(entries_view(prev)[m] == field_entry(b[m]));
                    }
                }
            }
            j = j + 1;
        }
        let mut vals: Vec<Option<Vec<char>>> = Vec::new();
        let mut i: usize = 0;
        while i < FIELD_COUNT
            invariant
                i <= FIELD_COUNT,
                b == seqs(block@),
                entries@.len() == b.len(),
                forall|m: int| 0 <= m < b.len() ==> #[trigger] entries_view(entries@)[m] == field_entry(b[m]),
                opt_seqs(vals@) == block_values(b).take(i as int),
            decreases FIELD_COUNT - i,
        {
            let ghost before = opt_seqs(vals@);
            let v = Self::lookup_entries(&entries, key(i), Ghost(b));
            vals.push(v);
            assert(opt_seqs(vals@) =~= before.push(lookup(b, key_name(i as int))));
            assert(block_values(b).take(i + 1) =~= block_values(b).take(i as int).push(
                lookup(b, key_name(i as int)),
            ));
            i = i + 1;
        }
        assert(block_values(b).take(FIELD_COUNT as int) =~= block_values(b));
        transaction_from_values(&vals)
    }

    /// Reads one block: its `KEY: value` lines, in any order, must give all eight keys.
    pub fn parse_text_block(block: &str) -> (r: Result<Transaction, ParseError>)
        ensures
            r matches Ok(t) ==> parse_block(lines(block@)) == Ok::<TransactionView, ErrorView>(t@),
            r matches Err(e) ==> parse_block(lines(block@)) == Err::<TransactionView, ErrorView>(
                e@,
            ),
    {
        let cs = chars_of(block);
        let ls = split_pieces(&cs, '\n', true);
        Self::parse_block_lines(&ls)
    }

    /// Decodes `data`: blocks of field lines separated by blank lines, one record each.
    pub fn read_from(&self, data: &[u8]) -> (r: Result<Vec<Transaction>, ParseError>)
        ensures
            r matches Ok(v) ==> decode_text(data@) == Ok::<Seq<TransactionView>, ErrorView>(
                views(v@),
            ),
            r matches Err(e) ==> decode_text(data@) == Err::<Seq<TransactionView>, ErrorView>(e@),
    {
        assert(data@.subrange(0, data@.len() as int) =~= data@);
        let text = match utf8_string(data, 0, data.len()) {
            Some(s) => s,
            None => {
                return Err(ParseError::Utf8);
            },
        };
        let cs = chars_of(text.as_str());
        let ls = split_pieces(&cs, '\n', true);
        let ghost all = seqs(ls@);
        let mut out: Vec<Transaction> = Vec::new();
        let mut block: Vec<Vec<char>> = Vec::new();
        let mut i: usize = 0;
        assert(seqs(block@) =~= Seq::<Seq<char>>::empty());
        assert(views(out@) + text_records(all, 0, seq![])->Ok_0 =~= text_records(all, 0, seq![])->Ok_0);
        while i < ls.len()
            invariant
                i <= ls@.len(),
                all == seqs(ls@),
                all == lines(cs@),
                decode_text(data@) == prepend(views(out@), text_records(all, i as int, seqs(block@))),
            decreases ls@.len() - i,
        {
            let t = trim_chars(&ls[i], false);
            if t.len() == 0 {
                if block.len() > 0 {
                    let tx = Self::parse_block_lines(&block)?;
                    let ghost before = views(out@);
                    out.push(tx);
                    block = Vec::new();
                    proof {
                        assert(views(out@) =~= before + seq![tx@]);
                        assert(seqs(block@) =~= Seq::<Seq<char>>::empty());
                        match text_records(all, i + 1, seq![]) {
                            Ok(s) => {
                                assert(before + (seq![tx@] + s) =~= (before + seq![tx@]) + s);
                            },
                            Err(_) => {},
                        }
                    }
                }
            } else {
                let ghost before = seqs(block@);
                let line = copy_range(&ls[i], 0, ls[i].len());
                block.push(line);
                assert(ls@[i as int]@.subrange(0, ls@[i as int]@.len() as int) =~= ls@[i as int]@);
                assert(seqs(block@) =~= before.push(all[i as int]));
            }
            i = i + 1;
        }
        if block.len() > 0 {
            let tx = Self::parse_block_lines(&block)?;
            let ghost before = views(out@);
            out.push(tx);
            assert(views(out@) =~= before + seq![tx@]);
        } else {
            assert(views(out@) + seq![] =~= views(out@));
        }
        Ok(out)
    }

    /// The values of the eight fields of `t`, in column order.
    fn values_of(t: &Transaction) -> (r: Vec<Vec<char>>)
        ensures
            r@.len() == FIELD_COUNT,
            seqs(r@) == record_values(t@),
    {
        let mut r: Vec<Vec<char>> = Vec::new();
        let mut f: Vec<char> = Vec::new();
        push_decimal(&mut f, t.tx_id);
        let ghost g0 = f@;
        r.push(f);
        let mut f: Vec<char> = Vec::new();
        push_str(&mut f, t.tx_type.token());
        let ghost g1 = f@;
        r.push(f);
        let mut f: Vec<char> = Vec::new();
        push_decimal(&mut f, t.from_user_id);
        let ghost g2 = f@;
        r.push(f);
        let mut f: Vec<char> = Vec::new();
        push_decimal(&mut f, t.to_user_id);
        let ghost g3 = f@;
        r.push(f);
        let mut f: Vec<char> = Vec::new();
        if t.amount < 0 {
            f.push('-');
            let m: u64 = if t.amount == i64::MIN {
                0x8000_0000_0000_0000u64
            } else {
                (-t.amount) as u64
            };
            push_decimal(&mut f, m);
        } else {
            push_decimal(&mut f, t.amount as u64);
        }
        assert(f@ =~= signed_decimal(t.amount as int));
        let ghost g4 = f@;
        r.push(f);
        let mut f: Vec<char> = Vec::new();
        push_decimal(&mut f, t.timestamp);
        let ghost g5 = f@;
        r.push(f);
        let mut f: Vec<char> = Vec::new();
        push_str(&mut f, t.status.token());
        let ghost g6 = f@;
        r.push(f);
        let f = chars_of(t.description.as_str());
        let ghost g7 = f@;
        r.push(f);
        assert(seqs(r@) =~= seq![g0, g1, g2, g3, g4, g5, g6, g7]);
        assert(seqs(r@) =~= record_values(t@));
        r
    }

    /// Appends the field lines of `t`, with their line feeds, to `out`.
    fn push_record(out: &mut Vec<char>, t: &Transaction)
        ensures
            final(out)@ == old(out)@ + text_record(t@),
    {
        let ghost start = out@;
        let values = Self::values_of(t);
        let ghost ls = record_lines(t@);
        let mut k: usize = 0;
        while k < FIELD_COUNT
            invariant
                values@.len() == FIELD_COUNT,
                seqs(values@) == record_values(t@),
                ls == record_lines(t@),
                k <= FIELD_COUNT,
                out@ == start + join_lines(ls.take(k as int)),
            decreases FIELD_COUNT - k,
        {
            let ghost before = out@;
            push_str(out, key(k));
            out.push(':');
            out.push(' ');
            let v = &values[k];
            let mut j: usize = 0;
            while j < v.len()
                invariant
                    j <= v@.len(),
                    out@ == before + key_name(k as int) + seq![':', ' '] + v@.take(j as int),
                decreases v@.len() - j,
            {
                out.push(v[j]);
                assert(v@.take(j + 1) =~= v@.take(j as int).push(v@[j as int]));
                j = j + 1;
            }
            out.push('\n');
            proof {
                assert(v@.take(j as int) =~= v@);
                assert(v@ == record_values(t@)[k as int]);
                assert(ls[k as int] == entry_line(k as int, v@));
                lemma_join_lines_push(ls.take(k as int), ls[k as int]);
                assert(ls.take(k + 1) =~= ls.take(k as int).push(ls[k as int]));
                assert(out@ =~= start + join_lines(ls.take(k + 1)));
            }
            k = k + 1;
        }
        assert(ls.take(FIELD_COUNT as int) =~= ls);
    }

    /// Appends one block per transaction, in order, a blank line between two, to `out`.
    pub fn write_to(&self, out: &mut Vec<u8>, transactions: &[Transaction]) -> (r: Result<
        (),
        ParseError,
    >)
        ensures
            r is Ok,
            final(out)@ == old(out)@ + encode_utf8(text_body(views(transactions@))),
    {
        let mut text: Vec<char> = Vec::new();
        let mut i: usize = 0;
        while i < transactions.len()
            invariant
                i <= transactions@.len(),
                text@ == text_body(views(transactions@).take(i as int)),
            decreases transactions@.len() - i,
        {
            if i > 0 {
                text.push('\n');
            }
            Self::push_record(&mut text, &transactions[i]);
            proof {
                lemma_text_body_push(views(transactions@).take(i as int), transactions@[i as int]@);
                assert(views(transactions@).take(i + 1) =~= views(transactions@).take(i as int).push(
                    transactions@[i as int]@,
                ));
            }
            i = i + 1;
        }
        assert(views(transactions@).take(i as int) =~= views(transactions@));
        append_utf8(out, &text);
        Ok(())
    }
}

/// Whether a description survives the text layout unchanged: no line feed, and
/// neither white space nor a double quote at either end.
pub open spec fn text_safe(d: Seq<char>) -> bool {
    lacks(d, '\n') && (d.len() == 0 || (!is_whitespace(d[0]) && !is_whitespace(d.last()) && d[0]
        != '"' && d.last() != '"'))
}

/// A field line reads back as its key and its value, when the value holds no
/// line feed and has no white space at its ends.
pub proof fn lemma_entry(k: int, v: Seq<char>)
    requires
        0 <= k < FIELD_COUNT,
        lacks(v, '\n'),
        v.len() == 0 || (!is_whitespace(v[0]) && !is_whitespace(v.last())),
    ensures
        field_entry(entry_line(k, v)) == Some((key_name(k), v)),
        trim(entry_line(k, v)).len() > 0,
        lacks(entry_line(k, v), '\n'),
{
    let key = key_name(k);
    lemma_key_plain(k);
    lemma_plain(key);
    let line = entry_line(k, v);
    let n = key.len() as int;
    assert(forall|j: int| 0 <= j < n ==> line[j] == key[j]);
    assert(line[n] == ':');
    assert(line[n + 1] == ' ');
    assert(is_plain(key[0]));
    lemma_trim_none(key, false);
    assert(line.subrange(0, n) =~= key);
    assert(lacks(seq![':', ' '], '\n'));
    lemma_lacks_concat(key, seq![':', ' '], '\n');
    lemma_lacks_concat(key + seq![':', ' '], v, '\n');
    if v.len() > 0 {
        assert(line.last() == v.last());
        lemma_trim_none(line, false);
        lemma_find_scan(line, ':', 0, n);
        assert(line.subrange(n + 1, line.len() as int) =~= seq![' '] + v);
        lemma_trim_lead(' ', v, false);
        lemma_trim_none(v, false);
    } else {
        let short = key + seq![':'];
        assert(line =~= short + seq![' ']);
        assert(short[0] == key[0]);
        lemma_trim_trail(short, ' ', false);
        assert(short.last() == ':');
        lemma_trim_none(short, false);
        assert(forall|j: int| 0 <= j < n ==> short[j] == key[j]);
        lemma_find_scan(short, ':', 0, n);
        assert(short.subrange(0, n) =~= key);
        assert(short.subrange(n + 1, short.len() as int) =~= v);
        lemma_trim_none(v, false);
    }
}

/// The value of a key is that of its last field line.
pub proof fn lemma_lookup_last(b: Seq<Seq<char>>, key: Seq<char>, i: int, v: Seq<char>)
    requires
        0 <= i < b.len(),
        field_entry(b[i]) == Some((key, v)),
        forall|j: int| i < j < b.len() ==> !(#[trigger] field_entry(b[j]) matches Some((k, w)) && k == key),
    ensures
        lookup(b, key) == Some(v),
    decreases b.len(),
{
    if i < b.len() - 1 {
        let d = b.drop_last();
        assert forall|j: int| i < j < d.len() implies !(#[trigger] field_entry(d[j]) matches Some((
            k,
            w,
        )) && k == key) by {
            assert(d[j] == b[j]);
        }
        assert(d[i] == b[i]);
        lemma_lookup_last(d, key, i, v);
        assert(b.last() == b[b.len() - 1]);
    }
}

/// The field lines of a transaction with a safe description hold no line feed,
/// are not blank, and as a block read back as the transaction.
pub proof fn lemma_record_block(t: TransactionView)
    requires
        text_safe(t.description),
    ensures
        record_lines(t).len() == FIELD_COUNT,
        forall|k: int| 0 <= k < FIELD_COUNT ==> lacks(#[trigger] record_lines(t)[k], '\n'),
        forall|k: int| 0 <= k < FIELD_COUNT ==> trim(#[trigger] record_lines(t)[k]).len() > 0,
        parse_block(record_lines(t)) == Ok::<TransactionView, ErrorView>(t),
{
    let vs = record_values(t);
    let b = record_lines(t);
    lemma_decimal_plain(t.tx_id as nat, t.amount as int);
    lemma_decimal_plain(t.from_user_id as nat, 0);
    lemma_decimal_plain(t.to_user_id as nat, 0);
    lemma_decimal_plain(t.timestamp as nat, 0);
    lemma_tokens_plain(t.tx_type, t.status);
    lemma_decimal(t.tx_id as nat);
    lemma_decimal(t.from_user_id as nat);
    lemma_decimal(t.to_user_id as nat);
    lemma_decimal(t.timestamp as nat);
    assert forall|k: int| 0 <= k < FIELD_COUNT implies field_entry(#[trigger] b[k]) == Some(
        (key_name(k), vs[k]),
    ) && lacks(b[k], '\n') && trim(b[k]).len() > 0 by {
        if k < 7 {
            assert(plain(vs[k]));
            assert(vs[k].len() > 0);
            lemma_plain(vs[k]);
            assert(!is_whitespace(vs[k][0]));
            assert(!is_whitespace(vs[k].last()));
        }
        lemma_entry(k, vs[k]);
    }
    let vals = block_values(b);
    assert forall|i: int| 0 <= i < FIELD_COUNT implies #[trigger] vals[i] == Some(vs[i]) by {
        assert forall|j: int| i < j < b.len() implies !(#[trigger] field_entry(b[j]) matches Some((
            k,
            w,
        )) && k == key_name(i)) by {
            lemma_keys_distinct(i, j);
        }
        lemma_lookup_last(b, key_name(i), i, vs[i]);
    }
    lemma_parse_decimal_u64(t.tx_id);
    lemma_parse_decimal_u64(t.from_user_id);
    lemma_parse_decimal_u64(t.to_user_id);
    lemma_parse_decimal_i64(t.amount);
    lemma_parse_decimal_u64(t.timestamp);
    lemma_type_bijection(t.tx_type, seq![], 0);
    lemma_status_bijection(t.status, seq![], 0);
    lemma_trim_none(t.description, true);
    assert(vals[0] == Some(vs[0]) && vals[1] == Some(vs[1]) && vals[2] == Some(vs[2]));
    assert(vals[3] == Some(vs[3]) && vals[4] == Some(vs[4]) && vals[5] == Some(vs[5]));
    assert(vals[6] == Some(vs[6]) && vals[7] == Some(vs[7]));
}

/// Lines joined with line feeds split back into the lines.
pub proof fn lemma_join_lines_split(ls: Seq<Seq<char>>, r: Seq<char>)
    requires
        forall|k: int| 0 <= k < ls.len() ==> lacks(#[trigger] ls[k], '\n'),
    ensures
        lines(join_lines(ls) + r) == ls + lines(r),
    decreases ls.len(),
{
    if ls.len() == 0 {
        assert(join_lines(ls) + r =~= r);
        assert(ls + lines(r) =~= lines(r));
    } else {
        let rest = ls.drop_first();
        assert forall|k: int| 0 <= k < rest.len() implies lacks(#[trigger] rest[k], '\n') by {
            assert(rest[k] == ls[k + 1]);
        }
        lemma_join_lines_split(rest, r);
        assert(lacks(ls[0], '\n'));
        assert(join_lines(ls) + r =~= ls[0] + seq!['\n'] + (join_lines(rest) + r));
        lemma_pieces_cons(ls[0], join_lines(rest) + r, '\n', true);
        assert(ls =~= seq![ls[0]] + rest);
    }
}

/// The lines of the encoding of a sequence of transactions: the field lines of
/// each, an empty line between two consecutive ones.
pub open spec fn text_lines(s: Seq<TransactionView>) -> Seq<Seq<char>>
    decreases s.len(),
{
    if s.len() == 0 {
        seq![]
    } else if s.len() == 1 {
        record_lines(s[0])
    } else {
        record_lines(s[0]) + seq![Seq::<char>::empty()] + text_lines(s.drop_first())
    }
}

pub proof fn lemma_text_body_lines(s: Seq<TransactionView>)
    requires
        forall|i: int| 0 <= i < s.len() ==> text_safe(#[trigger] s[i].description),
    ensures
        lines(text_body(s)) == text_lines(s),
    decreases s.len(),
{
    if s.len() == 0 {
    } else {
        assert(text_safe(s[0].description));
        lemma_record_block(s[0]);
        let rl = record_lines(s[0]);
        if s.len() == 1 {
            lemma_join_lines_split(rl, seq![]);
            assert(join_lines(rl) + seq![] =~= join_lines(rl));
            assert(rl + Seq::<Seq<char>>::empty() =~= rl);
        } else {
            let rest = s.drop_first();
            assert forall|i: int| 0 <= i < rest.len() implies text_safe(#[trigger] rest[i].description) by {
                assert(rest[i] == s[i + 1]);
            }
            lemma_text_body_lines(rest);
            let tail = seq!['\n'] + text_body(rest);
            assert(text_body(s) =~= join_lines(rl) + tail);
            lemma_join_lines_split(rl, tail);
            assert(tail =~= Seq::<char>::empty() + seq!['\n'] + text_body(rest));
            lemma_pieces_cons(Seq::<char>::empty(), text_body(rest), '\n', true);
            assert(rl + (seq![Seq::<char>::empty()] + text_lines(rest)) =~= rl + seq![Seq::<char>::empty()]
                + text_lines(rest));
        }
    }
}

/// Reading blocks after a prefix of lines, with nothing gathered, is reading
/// the blocks of what follows it.
pub proof fn lemma_text_records_shift(p: Seq<Seq<char>>, ls: Seq<Seq<char>>, k: int, b: Seq<Seq<char>>)
    requires
        0 <= k,
    ensures
        text_records(p + ls, p.len() + k, b) == text_records(ls, k, b),
    decreases ls.len() - k,
{
    if k < ls.len() {
        assert((p + ls)[p.len() + k] == ls[k]);
        if trim(ls[k]).len() == 0 {
            if b.len() == 0 {
                lemma_text_records_shift(p, ls, k + 1, b);
            } else {
                lemma_text_records_shift(p, ls, k + 1, seq![]);
            }
        } else {
            lemma_text_records_shift(p, ls, k + 1, b.push(ls[k]));
        }
    }
}

/// Lines that are not blank are gathered into the block, in order.
pub proof fn lemma_text_gather(ls: Seq<Seq<char>>, n: int, m: int)
    requires
        0 <= m <= n <= ls.len(),
        forall|k: int| 0 <= k < n ==> trim(#[trigger] ls[k]).len() > 0,
    ensures
        text_records(ls, 0, seq![]) == text_records(ls, m, ls.take(m)),
    decreases m,
{
    if m > 0 {
        lemma_text_gather(ls, n, m - 1);
        assert(ls.take(m - 1).push(ls[m - 1]) =~= ls.take(m));
    } else {
        assert(ls.take(0) =~= Seq::<Seq<char>>::empty());
    }
}

/// The blocks of the lines of safe transactions are the transactions.
pub proof fn lemma_text_records(s: Seq<TransactionView>)
    requires
        forall|i: int| 0 <= i < s.len() ==> text_safe(#[trigger] s[i].description),
    ensures
        text_records(text_lines(s), 0, seq![]) == Ok::<Seq<TransactionView>, ErrorView>(s),
    decreases s.len(),
{
    if s.len() == 0 {
        assert(s =~= Seq::<TransactionView>::empty());
    } else {
        assert(text_safe(s[0].description));
        lemma_record_block(s[0]);
        let rl = record_lines(s[0]);
        let ls = text_lines(s);
        if s.len() == 1 {
            lemma_text_gather(ls, 8, 8);
            assert(ls.take(8) =~= rl);
            assert(seq![s[0]] =~= s);
        } else {
            let rest = s.drop_first();
            assert forall|i: int| 0 <= i < rest.len() implies text_safe(#[trigger] rest[i].description) by {
                assert(rest[i] == s[i + 1]);
            }
            lemma_text_records(rest);
            let p = rl + seq![Seq::<char>::empty()];
            assert(ls == p + text_lines(rest));
            assert forall|k: int| 0 <= k < 8 implies trim(#[trigger] ls[k]).len() > 0 by {
                assert(ls[k] == rl[k]);
            }
            lemma_text_gather(ls, 8, 8);
            assert(ls.take(8) =~= rl);
            assert(ls[8] == Seq::<char>::empty());
            assert(trim(ls[8]).len() == 0);
            lemma_text_records_shift(p, text_lines(rest), 0, seq![]);
            assert(seq![s[0]] + rest =~= s);
        }
    }
}

/// Decoding what encoding a sequence of transactions wrote gives the sequence
/// back, when no description holds a line feed or has white space or a double
/// quote at either end.
pub proof fn lemma_text_round_trip(s: Seq<TransactionView>)
    requires
        forall|i: int| 0 <= i < s.len() ==> text_safe(#[trigger] s[i].description),
    ensures
        decode_text(encode_utf8(text_body(s))) == Ok::<Seq<TransactionView>, ErrorView>(s),
{
    let text = text_body(s);
    encode_utf8_valid_utf8(text);
    encode_utf8_decode_utf8(text);
    lemma_text_body_lines(s);
    lemma_text_records(s);
}

/// Whether `v` is a well-formed value for column `j`.
pub open spec fn well_formed(j: int, v: Seq<char>) -> bool {
    if j == 1 {
        type_of_token(v) is Some
    } else if j == 4 {
        parse_i64_spec(v) is Some
    } else if j == 6 {
        status_of_token(v) is Some
    } else if j == 7 {
        true
    } else {
        parse_u64_spec(v) is Some
    }
}

/// A block that lacks a key fails; when every earlier key has a well-formed
/// value, it fails with `MissingField`, naming that key.
pub proof fn lemma_text_missing_field(block: Seq<Seq<char>>, k: int)
    requires
        0 <= k < FIELD_COUNT,
        lookup(block, key_name(k)) is None,
    ensures
        parse_block(block) is Err,
        (forall|j: int|
            0 <= j < k ==> (#[trigger] lookup(block, key_name(j)) matches Some(v) && well_formed(
                j,
                v,
            ))) ==> parse_block(block) == Err::<TransactionView, ErrorView>(
            ErrorView::MissingField(key_name(k)),
        ),
{
    let vals = block_values(block);
    assert(vals[k] is None);
    assert(forall|j: int| 0 <= j < FIELD_COUNT ==> #[trigger] vals[j] == lookup(block, key_name(j)));
    if forall|j: int|
        0 <= j < k ==> (#[trigger] lookup(block, key_name(j)) matches Some(v) && well_formed(j, v)) {
        assert(forall|j: int| 0 <= j < k ==> (#[trigger] vals[j] matches Some(v) && well_formed(j, v)));
        if k > 0 { assert(vals[0] matches Some(v) && well_formed(0, v)); }
        if k > 1 { assert(vals[1] matches Some(v) && well_formed(1, v)); }
        if k > 2 { assert(vals[2] matches Some(v) && well_formed(2, v)); }
        if k > 3 { assert(vals[3] matches Some(v) && well_formed(3, v)); }
        if k > 4 { assert(vals[4] matches Some(v) && well_formed(4, v)); }
        if k > 5 { assert(vals[5] matches Some(v) && well_formed(5, v)); }
        if k > 6 { assert(vals[6] matches Some(v) && well_formed(6, v)); }
    }
}

/// Swapping two adjacent lines that do not give the same key leaves every
/// key's value unchanged.
pub proof fn lemma_lookup_swap(b: Seq<Seq<char>>, i: int, key: Seq<char>)
    requires
        0 <= i,
        i + 1 < b.len(),
        !(field_entry(b[i]) matches Some((k1, w1)) && field_entry(b[i + 1]) matches Some((k2, w2))
            && k1 == k2),
    ensures
        lookup(b.update(i, b[i + 1]).update(i + 1, b[i]), key) == lookup(b, key),
    decreases b.len(),
{
    let c = b.update(i, b[i + 1]).update(i + 1, b[i]);
    if i + 1 < b.len() - 1 {
        assert(c.last() == b.last());
        assert(c.drop_last() =~= b.drop_last().update(i, b[i + 1]).update(i + 1, b[i]));
        lemma_lookup_swap(b.drop_last(), i, key);
    } else {
        let rest = b.drop_last().drop_last();
        assert(c.drop_last().drop_last() =~= rest);
        assert(c.last() == b[i]);
        assert(c.drop_last().last() == b[i + 1]);
        assert(b.drop_last().last() == b[i]);
        assert(b.last() == b[i + 1]);
        let l1 = lookup(b.drop_last(), key);
        let l2 = lookup(c.drop_last(), key);
        assert(l1 == match field_entry(b[i]) {
            Some((k, v)) => if k == key {
                Some(v)
            } else {
                lookup(rest, key)
            },
            None => lookup(rest, key),
        });
        assert(l2 == match field_entry(b[i + 1]) {
            Some((k, v)) => if k == key {
                Some(v)
            } else {
                lookup(rest, key)
            },
            None => lookup(rest, key),
        });
    }
}

/// The order of the lines of a block does not matter while no key is given
/// twice: swapping two adjacent lines that do not give the same key leaves the
/// parsed result unchanged.
pub proof fn lemma_text_key_order(b: Seq<Seq<char>>, i: int)
    requires
        0 <= i,
        i + 1 < b.len(),
        !(field_entry(b[i]) matches Some((k1, w1)) && field_entry(b[i + 1]) matches Some((k2, w2))
            && k1 == k2),
    ensures
        parse_block(b.update(i, b[i + 1]).update(i + 1, b[i])) == parse_block(b),
{
    let c = b.update(i, b[i + 1]).update(i + 1, b[i]);
    assert forall|j: int| 0 <= j < FIELD_COUNT implies #[trigger] block_values(c)[j]
        == block_values(b)[j] by {
        lemma_lookup_swap(b, i, key_name(j));
    }
    assert(block_values(c) =~= block_values(b));
}

/// A blank line inserted where no block is being gathered changes nothing.
proof fn lemma_text_blank_here(ls: Seq<Seq<char>>, i: int, blank: Seq<char>, b: Seq<Seq<char>>)
    requires
        trim(blank).len() == 0,
        0 <= i < ls.len(),
        b.len() == 0,
    ensures
        text_records(ls.insert(i, blank), i, b) == text_records(ls, i, b),
{
    let m = ls.insert(i, blank);
    assert(m[i] == blank);
    assert(b =~= Seq::<Seq<char>>::empty());
    let p = ls.take(i).push(blank);
    assert(m =~= p + ls.skip(i));
    assert(ls =~= ls.take(i) + ls.skip(i));
    lemma_text_records_shift(p, ls.skip(i), 0, seq![]);
    lemma_text_records_shift(ls.take(i), ls.skip(i), 0, seq![]);
}

/// A blank line added at the end changes nothing.
proof fn lemma_text_blank_end(ls: Seq<Seq<char>>, blank: Seq<char>, b: Seq<Seq<char>>)
    requires
        trim(blank).len() == 0,
    ensures
        text_records(ls.push(blank), ls.len() as int, b) == text_records(ls, ls.len() as int, b),
{
    let m = ls.push(blank);
    let n = ls.len() as int;
    assert(m[n] == blank);
    assert(text_records(m, n + 1, seq![]) == Ok::<Seq<TransactionView>, ErrorView>(seq![]));
    assert(text_records(m, n + 1, b) == text_records(ls, n, b));
    if b.len() > 0 {
        match parse_block(b) {
            Ok(t) => {
                assert(seq![t] + Seq::<TransactionView>::empty() =~= seq![t]);
            },
            Err(_) => {},
        }
    }
}

/// From a point where no block is being gathered, or from the end, the lines
/// read the same with one more blank line inserted at `i`.
proof fn lemma_text_blank_from(ls: Seq<Seq<char>>, i: int, blank: Seq<char>, j: int, b: Seq<Seq<char>>)
    requires
        trim(blank).len() == 0,
        0 <= i <= ls.len(),
        i == 0 || i == ls.len() || trim(ls[i - 1]).len() == 0,
        0 <= j <= i,
        j == i ==> b.len() == 0 || i == ls.len(),
    ensures
        text_records(ls.insert(i, blank), j, b) == text_records(ls, j, b),
    decreases i - j,
{
    let m = ls.insert(i, blank);
    if i == ls.len() {
        assert(m =~= ls.push(blank));
    }
    if j < i {
        assert(m[j] == ls[j]);
        if trim(ls[j]).len() == 0 {
            if b.len() == 0 {
                lemma_text_blank_from(ls, i, blank, j + 1, b);
            } else {
                lemma_text_blank_from(ls, i, blank, j + 1, seq![]);
            }
        } else {
            lemma_text_blank_from(ls, i, blank, j + 1, b.push(ls[j]));
        }
    } else if i < ls.len() {
        lemma_text_blank_here(ls, i, blank, b);
    } else {
        lemma_text_blank_end(ls, blank, b);
    }
}

/// Blank lines added at the start, at the end, or after a blank line leave the
/// records read from the lines unchanged (`decode_text` reads the lines of its
/// input this way).
pub proof fn lemma_text_extra_blanks(ls: Seq<Seq<char>>, i: int, blanks: Seq<Seq<char>>)
    requires
        forall|k: int| 0 <= k < blanks.len() ==> trim(#[trigger] blanks[k]).len() == 0,
        0 <= i <= ls.len(),
        i == 0 || i == ls.len() || trim(ls[i - 1]).len() == 0,
    ensures
        text_records(ls.take(i) + blanks + ls.skip(i), 0, seq![]) == text_records(ls, 0, seq![]),
    decreases blanks.len(),
{
    if blanks.len() == 0 {
        assert(ls.take(i) + blanks + ls.skip(i) =~= ls);
    } else {
        let b0 = blanks.drop_last();
        lemma_text_extra_blanks(ls, i, b0);
        let l1 = ls.take(i) + b0 + ls.skip(i);
        let p = i + b0.len();
        if b0.len() > 0 {
            assert(l1[p - 1] == b0.last());
        } else {
            assert(l1 =~= ls);
        }
        lemma_text_blank_from(l1, p, blanks.last(), 0, seq![]);
        assert(l1.insert(p, blanks.last()) =~= ls.take(i) + blanks + ls.skip(i));
    }
}

/// Two gathered blocks with the same field lines, both empty or both not,
/// lead to the same records.
proof fn lemma_text_records_alike(ls: Seq<Seq<char>>, j: int, b1: Seq<Seq<char>>, b2: Seq<Seq<char>>)
    requires
        field_lines(b1) == field_lines(b2),
        b1.len() == 0 <==> b2.len() == 0,
    ensures
        text_records(ls, j, b1) == text_records(ls, j, b2),
    decreases ls.len() - j,
{
    lemma_text_noise(b1, b2);
    if b1.len() == 0 {
        assert(b1 =~= b2);
    }
    if 0 <= j < ls.len() && trim(ls[j]).len() > 0 {
        lemma_field_lines_push(b1, ls[j]);
        lemma_field_lines_push(b2, ls[j]);
        lemma_text_records_alike(ls, j + 1, b1.push(ls[j]), b2.push(ls[j]));
    }
}

/// Adding a line to a block adds it to the field lines when it is one.
proof fn lemma_field_lines_push(b: Seq<Seq<char>>, l: Seq<char>)
    ensures
        field_lines(b.push(l)) == if field_entry(l) is Some {
            field_lines(b).push(l)
        } else {
            field_lines(b)
        },
{
    reveal(Seq::filter);
    assert(b.push(l).drop_last() =~= b);
    assert(b.push(l).last() == l);
}

/// Inside a record, after one of its lines, one more comment line leaves the
/// records unchanged.
proof fn lemma_text_comment_from(ls: Seq<Seq<char>>, i: int, c: Seq<char>, j: int, b: Seq<Seq<char>>)
    requires
        trim(c).len() > 0,
        trim(c)[0] == '#',
        1 <= i <= ls.len(),
        trim(ls[i - 1]).len() > 0,
        0 <= j <= i,
        j == i ==> b.len() > 0,
    ensures
        text_records(ls.insert(i, c), j, b) == text_records(ls, j, b),
    decreases i - j,
{
    let m = ls.insert(i, c);
    if j < i {
        assert(m[j] == ls[j]);
        if trim(ls[j]).len() == 0 {
            if b.len() == 0 {
                lemma_text_comment_from(ls, i, c, j + 1, b);
            } else {
                lemma_text_comment_from(ls, i, c, j + 1, seq![]);
            }
        } else {
            lemma_text_comment_from(ls, i, c, j + 1, b.push(ls[j]));
        }
    } else {
        assert(m[i] == c);
        assert(field_entry(c) is None);
        let p = ls.take(i).push(c);
        assert(m =~= p + ls.skip(i));
        assert(ls =~= ls.take(i) + ls.skip(i));
        lemma_text_records_shift(p, ls.skip(i), 0, b.push(c));
        lemma_text_records_shift(ls.take(i), ls.skip(i), 0, b);
        lemma_field_lines_push(b, c);
        lemma_text_records_alike(ls.skip(i), 0, b.push(c), b);
    }
}

/// Comment lines added inside a record, after one of its lines, leave the
/// records read from the lines unchanged.
pub proof fn lemma_text_extra_comments(ls: Seq<Seq<char>>, i: int, comments: Seq<Seq<char>>)
    requires
        forall|k: int|
            0 <= k < comments.len() ==> trim(#[trigger] comments[k]).len() > 0 && trim(
                comments[k],
            )[0] == '#',
        1 <= i <= ls.len(),
        trim(ls[i - 1]).len() > 0,
    ensures
        text_records(ls.take(i) + comments + ls.skip(i), 0, seq![]) == text_records(ls, 0, seq![]),
    decreases comments.len(),
{
    if comments.len() == 0 {
        assert(ls.take(i) + comments + ls.skip(i) =~= ls);
    } else {
        let c0 = comments.drop_last();
        lemma_text_extra_comments(ls, i, c0);
        let l1 = ls.take(i) + c0 + ls.skip(i);
        let p = i + c0.len();
        if c0.len() > 0 {
            assert(l1[p - 1] == c0.last());
        } else {
            assert(l1 =~= ls);
        }
        lemma_text_comment_from(l1, p, comments.last(), 0, seq![]);
        assert(l1.insert(p, comments.last()) =~= ls.take(i) + comments + ls.skip(i));
    }
}

/// The field lines of a block, in order: blank lines, comments and lines
/// without a colon left out.
pub open spec fn field_lines(b: Seq<Seq<char>>) -> Seq<Seq<char>> {
    b.filter(|l: Seq<char>| field_entry(l) is Some)
}

/// A key's value depends on the field lines alone.
pub proof fn lemma_lookup_field_lines(b: Seq<Seq<char>>, key: Seq<char>)
    ensures
        lookup(field_lines(b), key) == lookup(b, key),
    decreases b.len(),
{
    if b.len() > 0 {
        lemma_lookup_field_lines(b.drop_last(), key);
        let rest = field_lines(b.drop_last());
        reveal(Seq::filter);
        assert(field_lines(b) == if field_entry(b.last()) is Some {
            rest.push(b.last())
        } else {
            rest
        });
        if field_entry(b.last()) is Some {
            assert(rest.push(b.last()).last() == b.last());
            assert(rest.push(b.last()).drop_last() =~= rest);
        }
    }
}

/// Comment lines, blank lines and lines without a colon take no part in a
/// block: two blocks with the same field lines in the same order parse alike,
/// however many other lines stand between them.
pub proof fn lemma_text_noise(b1: Seq<Seq<char>>, b2: Seq<Seq<char>>)
    requires
        field_lines(b1) == field_lines(b2),
    ensures
        parse_block(b1) == parse_block(b2),
{
    assert forall|j: int| 0 <= j < FIELD_COUNT implies #[trigger] block_values(b1)[j]
        == block_values(b2)[j] by {
        lemma_lookup_field_lines(b1, key_name(j));
        lemma_lookup_field_lines(b2, key_name(j));
    }
    assert(block_values(b1) =~= block_values(b2));
}

/// Whether no key is given on two field lines of a block.
pub open spec fn keys_unique(b: Seq<Seq<char>>) -> bool {
    forall|i: int, j: int|
        #![trigger field_entry(b[i]), field_entry(b[j])]
        0 <= i < j < b.len() && field_entry(b[i]) is Some && field_entry(b[j]) is Some
            ==> field_entry(b[i])->Some_0.0 != field_entry(b[j])->Some_0.0
}

/// A value that a lookup finds stands on a field line of the block.
proof fn lemma_lookup_found(b: Seq<Seq<char>>, key: Seq<char>)
    requires
        lookup(b, key) is Some,
    ensures
        exists|j: int|
            0 <= j < b.len() && #[trigger] field_entry(b[j]) == Some((key, lookup(b, key)->Some_0)),
    decreases b.len(),
{
    if field_entry(b.last()) matches Some((k, v)) && k == key {
        assert(field_entry(b[b.len() - 1]) == Some((key, lookup(b, key)->Some_0)));
    } else {
        lemma_lookup_found(b.drop_last(), key);
        let j = choose|j: int|
            0 <= j < b.drop_last().len() && #[trigger] field_entry(b.drop_last()[j]) == Some(
                (key, lookup(b.drop_last(), key)->Some_0),
            );
        assert(b.drop_last()[j] == b[j]);
    }
}

/// In a block without repeated keys, a field line gives its key's value.
proof fn lemma_lookup_unique(b: Seq<Seq<char>>, key: Seq<char>, j: int, v: Seq<char>)
    requires
        keys_unique(b),
        0 <= j < b.len(),
        field_entry(b[j]) == Some((key, v)),
    ensures
        lookup(b, key) == Some(v),
{
    assert forall|m: int| j < m < b.len() implies !(#[trigger] field_entry(b[m]) matches Some((
        k,
        w,
    )) && k == key) by {
        if field_entry(b[m]) is Some {
            assert(field_entry(b[j])->Some_0.0 != field_entry(b[m])->Some_0.0);
        }
    }
    lemma_lookup_last(b, key, j, v);
}

/// A value found in one block is found in a block without repeated keys that
/// holds all its lines.
proof fn lemma_lookup_transfer(b1: Seq<Seq<char>>, b2: Seq<Seq<char>>, key: Seq<char>)
    requires
        keys_unique(b2),
        forall|l: Seq<char>| b1.contains(l) ==> b2.contains(l),
        lookup(b1, key) is Some,
    ensures
        lookup(b2, key) == lookup(b1, key),
{
    lemma_lookup_found(b1, key);
    let v = lookup(b1, key)->Some_0;
    let j = choose|j: int| 0 <= j < b1.len() && #[trigger] field_entry(b1[j]) == Some((key, v));
    assert(b1.contains(b1[j]));
    let j2 = choose|j2: int| 0 <= j2 < b2.len() && b2[j2] == b1[j];
    lemma_lookup_unique(b2, key, j2, v);
}

/// The order of the lines of a block does not matter while no key is given
/// twice: two such blocks made of the same lines parse alike.
pub proof fn lemma_text_lines_order(b1: Seq<Seq<char>>, b2: Seq<Seq<char>>)
    requires
        keys_unique(b1),
        keys_unique(b2),
        forall|l: Seq<char>| b1.contains(l) <==> b2.contains(l),
    ensures
        parse_block(b1) == parse_block(b2),
{
    assert forall|j: int| 0 <= j < FIELD_COUNT implies #[trigger] block_values(b1)[j]
        == block_values(b2)[j] by {
        let k = key_name(j);
        if lookup(b1, k) is Some {
            lemma_lookup_transfer(b1, b2, k);
        } else if lookup(b2, k) is Some {
            lemma_lookup_transfer(b2, b1, k);
        }
    }
    assert(block_values(b1) =~= block_values(b2));
}

} // verus!
