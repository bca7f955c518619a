use vstd::prelude::*;

use crate::decimal::{decimal, push_decimal};
use crate::error::{ErrorView, ParseError};
use crate::scan::{chars_of, chars_to_string, is_plain, plain};

verus! {

/// One financial transaction.
#[derive(Debug, Clone)]
pub struct Transaction {
    pub tx_id: u64,
    pub tx_type: TransactionType,
    pub from_user_id: u64,
    pub to_user_id: u64,
    pub amount: i64,
    pub timestamp: u64,
    pub status: TransactionStatus,
    pub description: String,
}

/// The kind of a transaction.
#[derive(Debug, Clone, Copy, PartialEq, Eq, Structural)]
pub enum TransactionType {
    Deposit,
    Transfer,
    Withdrawal,
}

/// The outcome of a transaction.
#[derive(Debug, Clone, Copy, PartialEq, Eq, Structural)]
pub enum TransactionStatus {
    Success,
    Failure,
    Pending,
}

/// The mathematical value of a [`Transaction`]: its description as characters.
pub struct TransactionView {
    pub tx_id: u64,
    pub tx_type: TransactionType,
    pub from_user_id: u64,
    pub to_user_id: u64,
    pub amount: i64,
    pub timestamp: u64,
    pub status: TransactionStatus,
    pub description: Seq<char>,
}

impl View for Transaction {
    type V = TransactionView;

    open spec fn view(&self) -> TransactionView {
        TransactionView {
            tx_id: self.tx_id,
            tx_type: self.tx_type,
            from_user_id: self.from_user_id,
            to_user_id: self.to_user_id,
            amount: self.amount,
            timestamp: self.timestamp,
            status: self.status,
            description: self.description@,
        }
    }
}

/// The views of a sequence of transactions, in order.
pub open spec fn views(s: Seq<Transaction>) -> Seq<TransactionView> {
    s.map_values(|t: Transaction| t@)
}

impl PartialEq for Transaction {
    fn eq(&self, other: &Transaction) -> (r: bool) {
        self.tx_id == other.tx_id && self.tx_type == other.tx_type && self.from_user_id
            == other.from_user_id && self.to_user_id == other.to_user_id && self.amount
            == other.amount && self.timestamp == other.timestamp && self.status == other.status
            && self.description == other.description
    }
}

impl vstd::std_specs::cmp::PartialEqSpecImpl for Transaction {
    open spec fn obeys_eq_spec() -> bool {
        true
    }

    open spec fn eq_spec(&self, other: &Transaction) -> bool {
        self@ == other@
    }
}

/// The upper-case token of a transaction type.
pub open spec fn type_token(t: TransactionType) -> Seq<char> {
    match t {
        TransactionType::Deposit => "DEPOSIT"@,
        TransactionType::Transfer => "TRANSFER"@,
        TransactionType::Withdrawal => "WITHDRAWAL"@,
    }
}

/// The byte code of a transaction type.
pub open spec fn type_code(t: TransactionType) -> u8 {
    match t {
        TransactionType::Deposit => 0,
        TransactionType::Transfer => 1,
        TransactionType::Withdrawal => 2,
    }
}

/// The upper-case token of a transaction status.
pub open spec fn status_token(s: TransactionStatus) -> Seq<char> {
    match s {
        TransactionStatus::Success => "SUCCESS"@,
        TransactionStatus::Failure => "FAILURE"@,
        TransactionStatus::Pending => "PENDING"@,
    }
}

/// The byte code of a transaction status.
pub open spec fn status_code(s: TransactionStatus) -> u8 {
    match s {
        TransactionStatus::Success => 0,
        TransactionStatus::Failure => 1,
        TransactionStatus::Pending => 2,
    }
}

/// The transaction type named by a token, if any.
pub open spec fn type_of_token(s: Seq<char>) -> Option<TransactionType> {
    if s == "DEPOSIT"@ {
        Some(TransactionType::Deposit)
    } else if s == "TRANSFER"@ {
        Some(TransactionType::Transfer)
    } else if s == "WITHDRAWAL"@ {
        Some(TransactionType::Withdrawal)
    } else {
        None
    }
}

/// The transaction status named by a token, if any.
pub open spec fn status_of_token(s: Seq<char>) -> Option<TransactionStatus> {
    if s == "SUCCESS"@ {
        Some(TransactionStatus::Success)
    } else if s == "FAILURE"@ {
        Some(TransactionStatus::Failure)
    } else if s == "PENDING"@ {
        Some(TransactionStatus::Pending)
    } else {
        None
    }
}

/// The transaction type of a byte code, if any.
pub open spec fn type_of_code(c: u8) -> Option<TransactionType> {
    if c == 0 {
        Some(TransactionType::Deposit)
    } else if c == 1 {
        Some(TransactionType::Transfer)
    } else if c == 2 {
        Some(TransactionType::Withdrawal)
    } else {
        None
    }
}

/// The transaction status of a byte code, if any.
pub open spec fn status_of_code(c: u8) -> Option<TransactionStatus> {
    if c == 0 {
        Some(TransactionStatus::Success)
    } else if c == 1 {
        Some(TransactionStatus::Failure)
    } else if c == 2 {
        Some(TransactionStatus::Pending)
    } else {
        None
    }
}

/// The three type tokens differ from each other.
pub proof fn lemma_type_tokens_distinct()
    ensures
        "DEPOSIT"@ != "TRANSFER"@,
        "DEPOSIT"@ != "WITHDRAWAL"@,
        "TRANSFER"@ != "WITHDRAWAL"@,
{
    reveal_strlit("DEPOSIT");
    reveal_strlit("TRANSFER");
    reveal_strlit("WITHDRAWAL");
    assert("DEPOSIT"@[0] != "TRANSFER"@[0]);
    assert("DEPOSIT"@.len() != "WITHDRAWAL"@.len());
    assert("TRANSFER"@.len() != "WITHDRAWAL"@.len());
}

/// The three status tokens differ from each other.
pub proof fn lemma_status_tokens_distinct()
    ensures
        "SUCCESS"@ != "FAILURE"@,
        "SUCCESS"@ != "PENDING"@,
        "FAILURE"@ != "PENDING"@,
{
    reveal_strlit("SUCCESS");
    reveal_strlit("FAILURE");
    reveal_strlit("PENDING");
    assert("SUCCESS"@[0] != "FAILURE"@[0]);
    assert("SUCCESS"@[0] != "PENDING"@[0]);
    assert("FAILURE"@[0] != "PENDING"@[0]);
}

/// Every type maps to its token and back, and to its code and back;
/// every token and every code that names a type is the one of that type.
pub proof fn lemma_type_bijection(t: TransactionType, s: Seq<char>, c: u8)
    ensures
        type_of_token(type_token(t)) == Some(t),
        type_of_code(type_code(t)) == Some(t),
        type_of_token(s) matches Some(u) ==> type_token(u) == s,
        type_of_code(c) matches Some(u) ==> type_code(u) == c,
{
    lemma_type_tokens_distinct();
}

/// Every status maps to its token and back, and to its code and back;
/// every token and every code that names a status is the one of that status.
pub proof fn lemma_status_bijection(t: TransactionStatus, s: Seq<char>, c: u8)
    ensures
        status_of_token(status_token(t)) == Some(t),
        status_of_code(status_code(t)) == Some(t),
        status_of_token(s) matches Some(u) ==> status_token(u) == s,
        status_of_code(c) matches Some(u) ==> status_code(u) == c,
{
    lemma_status_tokens_distinct();
}

/// Whether `cs` holds exactly the characters of `lit`.
pub fn chars_equal(cs: &Vec<char>, lit: &str) -> (r: bool)
    ensures
        r == (cs@ == lit@),
{
    let n = lit.unicode_len();
    if cs.len() != n {
        return false;
    }
    let mut i: usize = 0;
    while i < n
        invariant
            n == lit@.len(),
            cs@.len() == n,
            i <= n,
            forall|k: int| 0 <= k < i ==> cs@[k] == lit@[k],
        decreases n - i,
    {
        if cs[i] != lit.get_char(i) {
            return false;
        }
        i = i + 1;
    }
    assert(cs@ =~= lit@);
    true
}

impl TransactionType {
    /// The type of a byte code; a code that names none fails, carrying its decimal text.
    pub fn from_code_checked(c: u8) -> (r: Result<TransactionType, ParseError>)
        ensures
            r matches Ok(t) ==> type_of_code(c) == Some(t),
            r matches Err(e) ==> type_of_code(c) is None && e@ == ErrorView::InvalidTransactionType(decimal(c as nat)),
    {
        match TransactionType::from_code(c) {
            Some(t) => Ok(t),
            None => Err(ParseError::InvalidTransactionType(code_text(c))),
        }
    }

    /// The byte code of this type.
    pub fn code(&self) -> (r: u8)
        ensures
            r == type_code(*self),
    {
        match self {
            TransactionType::Deposit => 0,
            TransactionType::Transfer => 1,
            TransactionType::Withdrawal => 2,
        }
    }

    /// The type of a byte code, if it names one.
    pub fn from_code(c: u8) -> (r: Option<TransactionType>)
        ensures
            r == type_of_code(c),
    {
        if c == 0 {
            Some(TransactionType::Deposit)
        } else if c == 1 {
            Some(TransactionType::Transfer)
        } else if c == 2 {
            Some(TransactionType::Withdrawal)
        } else {
            None
        }
    }

    /// The upper-case token of this type.
    pub fn token(&self) -> (r: &'static str)
        ensures
            r@ == type_token(*self),
    {
        match self {
            TransactionType::Deposit => "DEPOSIT",
            TransactionType::Transfer => "TRANSFER",
            TransactionType::Withdrawal => "WITHDRAWAL",
        }
    }

    /// The type named by the characters `cs`, if any.
    pub fn from_token_chars(cs: &Vec<char>) -> (r: Option<TransactionType>)
        ensures
            r == type_of_token(cs@),
    {
        if chars_equal(cs, "DEPOSIT") {
            Some(TransactionType::Deposit)
        } else if chars_equal(cs, "TRANSFER") {
            Some(TransactionType::Transfer)
        } else if chars_equal(cs, "WITHDRAWAL") {
            Some(TransactionType::Withdrawal)
        } else {
            None
        }
    }

    /// The type named by `s`; an unknown token fails and names itself.
    pub fn from_token(s: &str) -> (r: Result<TransactionType, ParseError>)
        ensures
            r matches Ok(t) ==> type_of_token(s@) == Some(t),
            r matches Err(e) ==> type_of_token(s@) is None && e@ == ErrorView::InvalidTransactionType(s@),
    {
        let cs = chars_of(s);
        match TransactionType::from_token_chars(&cs) {
            Some(t) => Ok(t),
            None => Err(ParseError::InvalidTransactionType(String::from_str(s))),
        }
    }

    /// The upper-case token of this type, as an owned string.
    pub fn to_string(&self) -> (r: String)
        ensures
            r@ == type_token(*self),
    {
        String::from_str(self.token())
    }
}

impl TransactionStatus {
    /// The status of a byte code; a code that names none fails, carrying its decimal text.
    pub fn from_code_checked(c: u8) -> (r: Result<TransactionStatus, ParseError>)
        ensures
            r matches Ok(t) ==> status_of_code(c) == Some(t),
            r matches Err(e) ==> status_of_code(c) is None && e@ == ErrorView::InvalidTransactionStatus(decimal(c as nat)),
    {
        match TransactionStatus::from_code(c) {
            Some(t) => Ok(t),
            None => Err(ParseError::InvalidTransactionStatus(code_text(c))),
        }
    }

    /// The byte code of this status.
    pub fn code(&self) -> (r: u8)
        ensures
            r == status_code(*self),
    {
        match self {
            TransactionStatus::Success => 0,
            TransactionStatus::Failure => 1,
            TransactionStatus::Pending => 2,
        }
    }

    /// The status of a byte code, if it names one.
    pub fn from_code(c: u8) -> (r: Option<TransactionStatus>)
        ensures
            r == status_of_code(c),
    {
        if c == 0 {
            Some(TransactionStatus::Success)
        } else if c == 1 {
            Some(TransactionStatus::Failure)
        } else if c == 2 {
            Some(TransactionStatus::Pending)
        } else {
            None
        }
    }

    /// The upper-case token of this status.
    pub fn token(&self) -> (r: &'static str)
        ensures
            r@ == status_token(*self),
    {
        match self {
            TransactionStatus::Success => "SUCCESS",
            TransactionStatus::Failure => "FAILURE",
            TransactionStatus::Pending => "PENDING",
        }
    }

    /// The status named by the characters `cs`, if any.
    pub fn from_token_chars(cs: &Vec<char>) -> (r: Option<TransactionStatus>)
        ensures
            r == status_of_token(cs@),
    {
        if chars_equal(cs, "SUCCESS") {
            Some(TransactionStatus::Success)
        } else if chars_equal(cs, "FAILURE") {
            Some(TransactionStatus::Failure)
        } else if chars_equal(cs, "PENDING") {
            Some(TransactionStatus::Pending)
        } else {
            None
        }
    }

    /// The status named by `s`; an unknown token fails and names itself.
    pub fn from_token(s: &str) -> (r: Result<TransactionStatus, ParseError>)
        ensures
            r matches Ok(t) ==> status_of_token(s@) == Some(t),
            r matches Err(e) ==> status_of_token(s@) is None && e@ == ErrorView::InvalidTransactionStatus(s@),
    {
        let cs = chars_of(s);
        match TransactionStatus::from_token_chars(&cs) {
            Some(t) => Ok(t),
            None => Err(ParseError::InvalidTransactionStatus(String::from_str(s))),
        }
    }

    /// The upper-case token of this status, as an owned string.
    pub fn to_string(&self) -> (r: String)
        ensures
            r@ == status_token(*self),
    {
        String::from_str(self.token())
    }
}

impl TryFrom<&str> for TransactionType {
    type Error = ParseError;

    fn try_from(value: &str) -> Result<TransactionType, ParseError> {
        TransactionType::from_token(value)
    }
}

// The exact result is stated by `TransactionType::from_token`; this conversion claims nothing more.
impl vstd::std_specs::convert::TryFromSpecImpl<&str> for TransactionType {
    open spec fn obeys_try_from_spec() -> bool {
        false
    }

    open spec fn try_from_spec(v: &str) -> Result<TransactionType, ParseError> {
        arbitrary()
    }
}

impl TryFrom<u8> for TransactionType {
    type Error = ParseError;

    fn try_from(value: u8) -> Result<TransactionType, ParseError> {
        TransactionType::from_code_checked(value)
    }
}

// The exact result is stated by `TransactionType::from_code`; this conversion claims nothing more.
impl vstd::std_specs::convert::TryFromSpecImpl<u8> for TransactionType {
    open spec fn obeys_try_from_spec() -> bool {
        false
    }

    open spec fn try_from_spec(v: u8) -> Result<TransactionType, ParseError> {
        arbitrary()
    }
}

impl From<TransactionType> for u8 {
    fn from(value: TransactionType) -> u8 {
        value.code()
    }
}

impl vstd::std_specs::convert::FromSpecImpl<TransactionType> for u8 {
    open spec fn obeys_from_spec() -> bool {
        true
    }

    open spec fn from_spec(v: TransactionType) -> u8 {
        type_code(v)
    }
}

impl TryFrom<&str> for TransactionStatus {
    type Error = ParseError;

    fn try_from(value: &str) -> Result<TransactionStatus, ParseError> {
        TransactionStatus::from_token(value)
    }
}

// The exact result is stated by `TransactionStatus::from_token`; this conversion claims nothing more.
impl vstd::std_specs::convert::TryFromSpecImpl<&str> for TransactionStatus {
    open spec fn obeys_try_from_spec() -> bool {
        false
    }

    open spec fn try_from_spec(v: &str) -> Result<TransactionStatus, ParseError> {
        arbitrary()
    }
}

impl TryFrom<u8> for TransactionStatus {
    type Error = ParseError;

    fn try_from(value: u8) -> Result<TransactionStatus, ParseError> {
        TransactionStatus::from_code_checked(value)
    }
}

// The exact result is stated by `TransactionStatus::from_code`; this conversion claims nothing more.
impl vstd::std_specs::convert::TryFromSpecImpl<u8> for TransactionStatus {
    open spec fn obeys_try_from_spec() -> bool {
        false
    }

    open spec fn try_from_spec(v: u8) -> Result<TransactionStatus, ParseError> {
        arbitrary()
    }
}

impl From<TransactionStatus> for u8 {
    fn from(value: TransactionStatus) -> u8 {
        value.code()
    }
}

impl vstd::std_specs::convert::FromSpecImpl<TransactionStatus> for u8 {
    open spec fn obeys_from_spec() -> bool {
        true
    }

    open spec fn from_spec(v: TransactionStatus) -> u8 {
        status_code(v)
    }
}

/// The decimal text of a byte code.
pub fn code_text(c: u8) -> (r: String)
    ensures
        r@ == decimal(c as nat),
{
    let mut cs: Vec<char> = Vec::new();
    push_decimal(&mut cs, c as u64);
    assert(cs@ =~= decimal(c as nat));
    chars_to_string(&cs, 0, cs.len())
}

/// Every type token and status token is plain and not empty.
pub proof fn lemma_tokens_plain(t: TransactionType, s: TransactionStatus)
    ensures
        plain(type_token(t)),
        type_token(t).len() > 0,
        plain(status_token(s)),
        status_token(s).len() > 0,
{
    reveal_strlit("DEPOSIT");
    reveal_strlit("TRANSFER");
    reveal_strlit("WITHDRAWAL");
    reveal_strlit("SUCCESS");
    reveal_strlit("FAILURE");
    reveal_strlit("PENDING");
    let a = type_token(t);
    let b = status_token(s);
    assert forall|i: int| 0 <= i < a.len() implies is_plain(#[trigger] a[i]) by {}
    assert forall|i: int| 0 <= i < b.len() implies is_plain(#[trigger] b[i]) by {}
}

} // verus!
