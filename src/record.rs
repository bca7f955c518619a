use vstd::prelude::*;

use crate::decimal::{parse_i64, parse_i64_spec, parse_u64, parse_u64_spec};
use crate::error::{ErrorView, ParseError};
use crate::scan::{chars_to_string, is_plain, plain, trim_chars, trim_quotes};
use crate::transaction::{
    status_of_token, type_of_token, Transaction, TransactionStatus, TransactionType,
    TransactionView,
};

verus! {

/// The number of fields of a record in the text formats.
pub const FIELD_COUNT: usize = 8;

/// The name of the field in column `i`, in the fixed order of the text formats.
pub open spec fn key_name(i: int) -> Seq<char> {
    if i == 0 {
        "TX_ID"@
    } else if i == 1 {
        "TX_TYPE"@
    } else if i == 2 {
        "FROM_USER_ID"@
    } else if i == 3 {
        "TO_USER_ID"@
    } else if i == 4 {
        "AMOUNT"@
    } else if i == 5 {
        "TIMESTAMP"@
    } else if i == 6 {
        "STATUS"@
    } else {
        "DESCRIPTION"@
    }
}

/// The name of the field in column `i`.
pub fn key(i: usize) -> (r: &'static str)
    requires
        i < FIELD_COUNT,
    ensures
        r@ == key_name(i as int),
{
    if i == 0 {
        "TX_ID"
    } else if i == 1 {
        "TX_TYPE"
    } else if i == 2 {
        "FROM_USER_ID"
    } else if i == 3 {
        "TO_USER_ID"
    } else if i == 4 {
        "AMOUNT"
    } else if i == 5 {
        "TIMESTAMP"
    } else if i == 6 {
        "STATUS"
    } else {
        "DESCRIPTION"
    }
}

/// The text of column `i`, or the failure that names it as missing.
pub open spec fn column(vals: Seq<Option<Seq<char>>>, i: int) -> Result<Seq<char>, ErrorView> {
    match vals[i] {
        Some(v) => Ok(v),
        None => Err(ErrorView::MissingField(key_name(i))),
    }
}

pub open spec fn u64_column(vals: Seq<Option<Seq<char>>>, i: int) -> Result<u64, ErrorView> {
    match column(vals, i) {
        Ok(v) => match parse_u64_spec(v) {
            Some(x) => Ok(x),
            None => Err(ErrorView::ParseInt(v)),
        },
        Err(e) => Err(e),
    }
}

pub open spec fn i64_column(vals: Seq<Option<Seq<char>>>, i: int) -> Result<i64, ErrorView> {
    match column(vals, i) {
        Ok(v) => match parse_i64_spec(v) {
            Some(x) => Ok(x),
            None => Err(ErrorView::ParseInt(v)),
        },
        Err(e) => Err(e),
    }
}

pub open spec fn type_column(vals: Seq<Option<Seq<char>>>) -> Result<TransactionType, ErrorView> {
    match column(vals, 1) {
        Ok(v) => match type_of_token(v) {
            Some(t) => Ok(t),
            None => Err(ErrorView::InvalidTransactionType(v)),
        },
        Err(e) => Err(e),
    }
}

pub open spec fn status_column(vals: Seq<Option<Seq<char>>>) -> Result<TransactionStatus, ErrorView> {
    match column(vals, 6) {
        Ok(v) => match status_of_token(v) {
            Some(t) => Ok(t),
            None => Err(ErrorView::InvalidTransactionStatus(v)),
        },
        Err(e) => Err(e),
    }
}

/// The transaction that the texts of the eight columns describe, read in column
/// order; the first missing or malformed column gives the failure.
pub open spec fn record_from_values(vals: Seq<Option<Seq<char>>>) -> Result<TransactionView, ErrorView> {
    match u64_column(vals, 0) {
        Err(e) => Err(e),
        Ok(tx_id) => match type_column(vals) {
            Err(e) => Err(e),
            Ok(tx_type) => match u64_column(vals, 2) {
                Err(e) => Err(e),
                Ok(from_user_id) => match u64_column(vals, 3) {
                    Err(e) => Err(e),
                    Ok(to_user_id) => match i64_column(vals, 4) {
                        Err(e) => Err(e),
                        Ok(amount) => match u64_column(vals, 5) {
                            Err(e) => Err(e),
                            Ok(timestamp) => match status_column(vals) {
                                Err(e) => Err(e),
                                Ok(status) => match column(vals, 7) {
                                    Err(e) => Err(e),
                                    Ok(d) => Ok(
                                        TransactionView {
                                            tx_id,
                                            tx_type,
                                            from_user_id,
                                            to_user_id,
                                            amount,
                                            timestamp,
                                            status,
                                            description: trim_quotes(d),
                                        },
                                    ),
                                },
                            },
                        },
                    },
                },
            },
        },
    }
}

/// The optional character sequences held by optional character vectors.
pub open spec fn opt_seqs(v: Seq<Option<Vec<char>>>) -> Seq<Option<Seq<char>>> {
    v.map_values(|x: Option<Vec<char>>| match x {
        Some(w) => Some(w@),
        None => None,
    })
}

fn column_text(vals: &Vec<Option<Vec<char>>>, i: usize) -> (r: Result<&Vec<char>, ParseError>)
    requires
        i < vals@.len(),
        i < FIELD_COUNT,
    ensures
        r matches Ok(v) ==> column(opt_seqs(vals@), i as int) == Ok::<Seq<char>, ErrorView>(v@),
        r matches Err(e) ==> column(opt_seqs(vals@), i as int) == Err::<Seq<char>, ErrorView>(e@),
{
    match &vals[i] {
        Some(v) => Ok(v),
        None => Err(ParseError::MissingField(String::from_str(key(i)))),
    }
}

fn u64_value(vals: &Vec<Option<Vec<char>>>, i: usize) -> (r: Result<u64, ParseError>)
    requires
        i < vals@.len(),
        i < FIELD_COUNT,
    ensures
        r matches Ok(x) ==> u64_column(opt_seqs(vals@), i as int) == Ok::<u64, ErrorView>(x),
        r matches Err(e) ==> u64_column(opt_seqs(vals@), i as int) == Err::<u64, ErrorView>(e@),
{
    let v = column_text(vals, i)?;
    match parse_u64(v, 0, v.len()) {
        Some(x) => {
            assert(v@.subrange(0, v@.len() as int) =~= v@);
            Ok(x)
        },
        None => {
            assert(v@.subrange(0, v@.len() as int) =~= v@);
            Err(ParseError::ParseInt(chars_to_string(v, 0, v.len())))
        },
    }
}

fn i64_value(vals: &Vec<Option<Vec<char>>>, i: usize) -> (r: Result<i64, ParseError>)
    requires
        i < vals@.len(),
        i < FIELD_COUNT,
    ensures
        r matches Ok(x) ==> i64_column(opt_seqs(vals@), i as int) == Ok::<i64, ErrorView>(x),
        r matches Err(e) ==> i64_column(opt_seqs(vals@), i as int) == Err::<i64, ErrorView>(e@),
{
    let v = column_text(vals, i)?;
    match parse_i64(v, 0, v.len()) {
        Some(x) => {
            assert(v@.subrange(0, v@.len() as int) =~= v@);
            Ok(x)
        },
        None => {
            assert(v@.subrange(0, v@.len() as int) =~= v@);
            Err(ParseError::ParseInt(chars_to_string(v, 0, v.len())))
        },
    }
}

/// Builds the transaction that the texts of the eight columns describe; `None`
/// stands for a column that is absent.
pub fn transaction_from_values(vals: &Vec<Option<Vec<char>>>) -> (r: Result<Transaction, ParseError>)
    requires
        vals@.len() == FIELD_COUNT,
    ensures
        r matches Ok(t) ==> record_from_values(opt_seqs(vals@)) == Ok::<TransactionView, ErrorView>(
            t@,
        ),
        r matches Err(e) ==> record_from_values(opt_seqs(vals@)) == Err::<
            TransactionView,
            ErrorView,
        >(e@),
{
    let tx_id = u64_value(vals, 0)?;
    let type_text = column_text(vals, 1)?;
    assert(type_text@.subrange(0, type_text@.len() as int) =~= type_text@);
    let tx_type = match TransactionType::from_token_chars(type_text) {
        Some(t) => t,
        None => {
            return Err(
                ParseError::InvalidTransactionType(chars_to_string(type_text, 0, type_text.len())),
            );
        },
    };
    assert(type_text@.subrange(0, type_text@.len() as int) =~= type_text@);
    let from_user_id = u64_value(vals, 2)?;
    let to_user_id = u64_value(vals, 3)?;
    let amount = i64_value(vals, 4)?;
    let timestamp = u64_value(vals, 5)?;
    let status_text = column_text(vals, 6)?;
    assert(status_text@.subrange(0, status_text@.len() as int) =~= status_text@);
    let status = match TransactionStatus::from_token_chars(status_text) {
        Some(s) => s,
        None => {
            return Err(
                ParseError::InvalidTransactionStatus(
                    chars_to_string(status_text, 0, status_text.len()),
                ),
            );
        },
    };
    assert(status_text@.subrange(0, status_text@.len() as int) =~= status_text@);
    let d = column_text(vals, 7)?;
    let trimmed = trim_chars(d, true);
    let description = chars_to_string(&trimmed, 0, trimmed.len());
    assert(trimmed@.subrange(0, trimmed@.len() as int) =~= trimmed@);
    Ok(
        Transaction {
            tx_id,
            tx_type,
            from_user_id,
            to_user_id,
            amount,
            timestamp,
            status,
            description,
        },
    )
}

/// Every key is plain and not empty.
pub proof fn lemma_key_plain(i: int)
    ensures
        plain(key_name(i)),
        key_name(i).len() > 0,
{
    reveal_strlit("TX_ID");
    reveal_strlit("TX_TYPE");
    reveal_strlit("FROM_USER_ID");
    reveal_strlit("TO_USER_ID");
    reveal_strlit("AMOUNT");
    reveal_strlit("TIMESTAMP");
    reveal_strlit("STATUS");
    reveal_strlit("DESCRIPTION");
    let k = key_name(i);
    assert forall|j: int| 0 <= j < k.len() implies is_plain(#[trigger] k[j]) by {}
}

/// The eight keys differ from each other.
pub proof fn lemma_keys_distinct(i: int, j: int)
    requires
        0 <= i < FIELD_COUNT,
        0 <= j < FIELD_COUNT,
        i != j,
    ensures
        key_name(i) != key_name(j),
{
    reveal_strlit("TX_ID");
    reveal_strlit("TX_TYPE");
    reveal_strlit("FROM_USER_ID");
    reveal_strlit("TO_USER_ID");
    reveal_strlit("AMOUNT");
    reveal_strlit("TIMESTAMP");
    reveal_strlit("STATUS");
    reveal_strlit("DESCRIPTION");
    if key_name(i).len() == key_name(j).len() {
        assert(key_name(i)[0] != key_name(j)[0]);
    }
}

} // verus!
