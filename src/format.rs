use vstd::prelude::*;
use vstd::utf8::*;

use crate::binary::{
    decode_binary, encodable, lemma_binary_round_trip, oversized_reason, records_bytes, BinaryFormat,
};
use crate::csv::{csv_safe, csv_text, decode_csv, lemma_csv_round_trip, CsvFormat};
use crate::error::{ErrorView, ParseError};
use crate::text::{decode_text, lemma_text_round_trip, text_body, text_safe, TextFormat};
use crate::transaction::{views, Transaction, TransactionView};

verus! {

/// The available encodings of transaction records.
#[derive(Debug, Clone, Copy, PartialEq, Eq, Structural)]
pub enum Format {
    Binary,
    Csv,
    Text,
}

/// What decoding `b` in format `f` gives.
pub open spec fn decode(f: Format, b: Seq<u8>) -> Result<Seq<TransactionView>, ErrorView> {
    match f {
        Format::Binary => decode_binary(b),
        Format::Csv => decode_csv(b),
        Format::Text => decode_text(b),
    }
}

/// The bytes that encoding `s` in format `f` writes.
pub open spec fn encode(f: Format, s: Seq<TransactionView>) -> Seq<u8> {
    match f {
        Format::Binary => records_bytes(s),
        Format::Csv => encode_utf8(csv_text(s)),
        Format::Text => encode_utf8(text_body(s)),
    }
}

/// Whether format `f` can encode every transaction of `s`: only the binary
/// format bounds a record's size.
pub open spec fn can_encode(f: Format, s: Seq<TransactionView>) -> bool {
    f != Format::Binary || forall|i: int| 0 <= i < s.len() ==> encodable(#[trigger] s[i])
}

impl Format {
    /// Decodes every record of `data` in this format, in order.
    pub fn read_from(&self, data: &[u8]) -> (r: Result<Vec<Transaction>, ParseError>)
        ensures
            r matches Ok(v) ==> decode(*self, data@) == Ok::<Seq<TransactionView>, ErrorView>(
                views(v@),
            ),
            r matches Err(e) ==> decode(*self, data@) == Err::<Seq<TransactionView>, ErrorView>(
                e@,
            ),
    {
        match self {
            Format::Binary => BinaryFormat.read_from(data),
            Format::Csv => CsvFormat.read_from(data),
            Format::Text => TextFormat.read_from(data),
        }
    }

    /// Appends the encoding of `transactions` in this format to `out`. Fails,
    /// writing nothing, only when a binary record cannot state its size.
    pub fn write_to(&self, out: &mut Vec<u8>, transactions: &[Transaction]) -> (r: Result<
        (),
        ParseError,
    >)
        ensures
            r is Ok <==> can_encode(*self, views(transactions@)),
            r is Ok ==> final(out)@ == old(out)@ + encode(*self, views(transactions@)),
            r matches Err(e) ==> final(out)@ == old(out)@ && e@ == ErrorView::InvalidFormat(
                oversized_reason(),
            ),
    {
        let r = match self {
            Format::Binary => BinaryFormat.write_to(out, transactions),
            Format::Csv => CsvFormat.write_to(out, transactions),
            Format::Text => TextFormat.write_to(out, transactions),
        };
        proof {
            let s = views(transactions@);
            if *self == Format::Binary {
                if r is Ok {
                    assert forall|i: int| 0 <= i < s.len() implies encodable(#[trigger] s[i]) by {
                        assert(s[i] == transactions@[i]@);
                        assert(encodable(transactions@[i]@));
                    }
                } else {
                    assert(!can_encode(*self, s)) by {
                        let i = choose|i: int|
                            0 <= i < transactions@.len() && !encodable(#[trigger] transactions@[i]@);
                        assert(s[i] == transactions@[i]@);
                    }
                }
            }
        }
        r
    }
}

/// Whether format `f` carries transaction `t` unchanged: a binary record must
/// state its size in 32 bits; a CSV description must hold no comma or line
/// feed and not start or end with a double quote; a text description must hold
/// no line feed and have neither white space nor a double quote at its ends.
pub open spec fn fits(f: Format, t: TransactionView) -> bool {
    match f {
        Format::Binary => encodable(t),
        Format::Csv => csv_safe(t.description),
        Format::Text => text_safe(t.description),
    }
}

/// In every format, decoding what encoding wrote gives the transactions back.
pub proof fn lemma_round_trip(f: Format, s: Seq<TransactionView>)
    requires
        forall|i: int| 0 <= i < s.len() ==> fits(f, #[trigger] s[i]),
    ensures
        can_encode(f, s),
        decode(f, encode(f, s)) == Ok::<Seq<TransactionView>, ErrorView>(s),
{
    match f {
        Format::Binary => {
            assert forall|i: int| 0 <= i < s.len() implies encodable(#[trigger] s[i]) by {
                assert(fits(f, s[i]));
            }
            lemma_binary_round_trip(s);
        },
        Format::Csv => {
            assert forall|i: int| 0 <= i < s.len() implies csv_safe(#[trigger] s[i].description) by {
                assert(fits(f, s[i]));
            }
            lemma_csv_round_trip(s);
        },
        Format::Text => {
            assert forall|i: int| 0 <= i < s.len() implies text_safe(#[trigger] s[i].description) by {
                assert(fits(f, s[i]));
            }
            lemma_text_round_trip(s);
        },
    }
}

} // verus!
