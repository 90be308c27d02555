//! The saved form of a wallet: a JSON-style document holding the name, the
//! balance and the log, one transaction per line. Amounts are written as
//! integers of minor units, timestamps as RFC 3339 (ISO-8601) text in UTC with
//! milliseconds, which chrono writes and reads.
//! In texts, quotes, backslashes, newlines, carriage returns and tabs are
//! escaped; every other character is written as it is.
use vstd::prelude::*;

use crate::wallet::{
    log_view, wallet_valid, Transaction, TransactionType, TransactionView, Wallet, WalletError, WalletView,
};

verus! {

// ---------------------------------------------------------------- integers
/// A decimal digit.
pub open spec fn is_digit(c: char) -> bool {
    '0' <= c && c <= '9'
}

/// The value of the decimal digit `c`.
pub open spec fn digit_val(c: char) -> int {
    c as u32 as int - 48
}

/// The decimal digit of value `d`, for `0 <= d < 10`.
pub open spec fn digit_char(d: int) -> char {
    if d == 0 {
        '0'
    } else if d == 1 {
        '1'
    } else if d == 2 {
        '2'
    } else if d == 3 {
        '3'
    } else if d == 4 {
        '4'
    } else if d == 5 {
        '5'
    } else if d == 6 {
        '6'
    } else if d == 7 {
        '7'
    } else if d == 8 {
        '8'
    } else {
        '9'
    }
}

/// The decimal digits of `n`, without leading zeros.
pub open spec fn nat_text(n: nat) -> Seq<char>
    decreases n,
{
    if n < 10 {
        seq![digit_char(n as int)]
    } else {
        nat_text(n / 10).push(digit_char((n % 10) as int))
    }
}

/// `v` in decimal, with a leading `-` when negative.
pub open spec fn int_text(v: int) -> Seq<char> {
    if v < 0 {
        seq!['-'] + nat_text((-v) as nat)
    } else {
        nat_text(v as nat)
    }
}

/// The value of a run of decimal digits.
pub open spec fn digits_value(d: Seq<char>) -> int
    decreases d.len(),
{
    if d.len() == 0 {
        0
    } else {
        digits_value(d.drop_last()) * 10 + digit_val(d.last())
    }
}

/// The number of decimal digits that `s` starts with.
pub open spec fn lead_digits(s: Seq<char>) -> nat
    decreases s.len(),
{
    if s.len() > 0 && is_digit(s[0]) {
        1 + lead_digits(s.drop_first())
    } else {
        0
    }
}

/// Reads an optional `-` and the longest run of digits that follows it; the
/// value must fit in an `i64`.
pub open spec fn parse_i64(s: Seq<char>) -> Option<(i64, Seq<char>)> {
    let neg = s.len() > 0 && s[0] == '-';
    let body = if neg {
        s.drop_first()
    } else {
        s
    };
    let k = lead_digits(body) as int;
    let v = if neg {
        -digits_value(body.take(k))
    } else {
        digits_value(body.take(k))
    };
    if k > 0 && i64::MIN <= v <= i64::MAX {
        Some((v as i64, body.skip(k)))
    } else {
        None
    }
}

// ----------------------------------------------------------------- strings
/// How one character of a text is written between quotes.
pub open spec fn esc_char(c: char) -> Seq<char> {
    if c == '"' {
        seq!['\\', '"']
    } else if c == '\\' {
        seq!['\\', '\\']
    } else if c == '\n' {
        seq!['\\', 'n']
    } else if c == '\r' {
        seq!['\\', 'r']
    } else if c == '\t' {
        seq!['\\', 't']
    } else {
        seq![c]
    }
}

/// A text written between quotes, without the quotes.
pub open spec fn esc_text(s: Seq<char>) -> Seq<char>
    decreases s.len(),
{
    if s.len() == 0 {
        seq![]
    } else {
        esc_char(s[0]) + esc_text(s.drop_first())
    }
}

/// The character that follows a backslash stands for.
pub open spec fn unesc(c: char) -> Option<char> {
    if c == '"' {
        Some('"')
    } else if c == '\\' {
        Some('\\')
    } else if c == 'n' {
        Some('\n')
    } else if c == 'r' {
        Some('\r')
    } else if c == 't' {
        Some('\t')
    } else {
        None
    }
}

/// Reads a quoted text from just after its opening quote up to and
/// including its closing quote.
pub open spec fn parse_str(s: Seq<char>) -> Option<(Seq<char>, Seq<char>)>
    decreases s.len(),
{
    if s.len() == 0 {
        None
    } else if s[0] == '"' {
        Some((seq![], s.drop_first()))
    } else if s[0] == '\\' {
        if s.len() < 2 {
            None
        } else {
            match unesc(s[1]) {
                None => None,
                Some(c) => match parse_str(s.skip(2)) {
                    None => None,
                    Some((t, rest)) => Some((seq![c] + t, rest)),
                },
            }
        }
    } else {
        match parse_str(s.drop_first()) {
            None => None,
            Some((t, rest)) => Some((seq![s[0]] + t, rest)),
        }
    }
}

/// Reads the fixed text `lit`.
pub open spec fn parse_lit(s: Seq<char>, lit: Seq<char>) -> Option<Seq<char>> {
    if lit.len() <= s.len() && s.take(lit.len() as int) == lit {
        Some(s.skip(lit.len() as int))
    } else {
        None
    }
}

// -------------------------------------------------------------- timestamps
/// What chrono writes, in RFC 3339 form in UTC with milliseconds, for the
/// instant `ms` milliseconds after the Unix epoch; none where chrono cannot
/// represent that instant.
pub uninterp spec fn iso_of(ms: i64) -> Option<Seq<char>>;

/// The instant, in milliseconds since the Unix epoch, that chrono reads from
/// the RFC 3339 text `s`; none where chrono refuses the text.
pub uninterp spec fn iso_read(s: Seq<char>) -> Option<i64>;

/// Relies on chrono's `DateTime::from_timestamp_millis`, then
/// `DateTime::to_rfc3339_opts(SecondsFormat::Millis, true)`: the instant as
/// RFC 3339 text, or none where it is out of chrono's range.
#[verifier::external_body]
fn iso_text(ms: i64) -> (r: Option<String>)
    ensures
        match r {
            Some(t) => iso_of(ms) == Some(t@),
            None => iso_of(ms) is None,
        },
{
    match chrono::DateTime::from_timestamp_millis(ms) {
        Some(d) => Some(d.to_rfc3339_opts(chrono::SecondsFormat::Millis, true)),
        None => None,
    }
}

/// Relies on chrono's `DateTime::parse_from_rfc3339`, then
/// `DateTime::timestamp_millis`: the instant an RFC 3339 text names.
#[verifier::external_body]
fn read_iso(s: &str) -> (r: Option<i64>)
    ensures
        r == iso_read(s@),
{
    match chrono::DateTime::parse_from_rfc3339(s) {
        Ok(d) => Some(d.timestamp_millis()),
        Err(_) => None,
    }
}

/// The text written for a timestamp.
pub open spec fn stamp_text(ms: i64) -> Seq<char> {
    match iso_of(ms) {
        Some(t) => t,
        None => seq![],
    }
}

/// Every timestamp of `log` can be written.
pub open spec fn writable(log: Seq<TransactionView>) -> bool {
    forall|i: int| 0 <= i < log.len() ==> (iso_of(#[trigger] log[i].timestamp) is Some)
}

/// chrono writes the timestamp `ms` and reads that text back as `ms`.
pub open spec fn stamp_round_trips(ms: i64) -> bool {
    iso_of(ms) is Some && iso_read(stamp_text(ms)) == Some(ms)
}

/// Every timestamp of `log` is written and read back unchanged.
pub open spec fn stamps_round_trip(log: Seq<TransactionView>) -> bool {
    forall|i: int| 0 <= i < log.len() ==> stamp_round_trips(#[trigger] log[i].timestamp)
}

// ------------------------------------------------------------- the wallet
/// The closing quote of a text.
pub open spec fn quote() -> Seq<char> {
    seq!['"']
}

/// How the kind of a transaction is written.
pub open spec fn kind_text(k: TransactionType) -> Seq<char> {
    match k {
        TransactionType::Credit => "Credit"@,
        TransactionType::Debit => "Debit"@,
    }
}

/// One transaction, on a line of its own.
pub open spec fn tx_text(t: TransactionView) -> Seq<char> {
    "\n  {\"type\":\""@ + (kind_text(t.transaction_type) + ("\",\"amount\":"@ + (int_text(
        t.amount as int,
    ) + (",\"timestamp\":\""@ + (esc_text(stamp_text(t.timestamp)) + (quote() + (
    ",\"description\":\""@ + (esc_text(t.description) + (quote() + (",\"balance_after\":"@ + (
    int_text(t.balance_after as int) + "}"@)))))))))))
}

/// The transactions after the first, each after a comma.
pub open spec fn more_text(log: Seq<TransactionView>) -> Seq<char>
    decreases log.len(),
{
    if log.len() == 0 {
        seq![]
    } else {
        ","@ + (tx_text(log[0]) + more_text(log.drop_first()))
    }
}

/// The transactions, separated by commas.
pub open spec fn txs_text(log: Seq<TransactionView>) -> Seq<char> {
    if log.len() == 0 {
        seq![]
    } else {
        tx_text(log[0]) + more_text(log.drop_first())
    }
}

/// The saved form of a wallet.
pub open spec fn wallet_text(w: WalletView) -> Seq<char> {
    "{\"name\":\""@ + (esc_text(w.name) + (quote() + (",\"balance\":"@ + (int_text(
        w.balance as int,
    ) + (",\"transactions\":["@ + (txs_text(w.transactions) + "\n]}\n"@))))))
}

/// Reads the kind of a transaction.
pub open spec fn parse_kind(s: Seq<char>) -> Option<(TransactionType, Seq<char>)> {
    match parse_lit(s, "Credit"@) {
        Some(r) => Some((TransactionType::Credit, r)),
        None => match parse_lit(s, "Debit"@) {
            Some(r) => Some((TransactionType::Debit, r)),
            None => None,
        },
    }
}

/// Reads one transaction, from the start of its line to its closing brace.
pub open spec fn parse_tx(s: Seq<char>) -> Option<(TransactionView, Seq<char>)> {
    match parse_lit(s, "\n  {\"type\":\""@) {
        None => None,
        Some(s1) => match parse_kind(s1) {
            None => None,
            Some((kind, s2)) => match parse_lit(s2, "\",\"amount\":"@) {
                None => None,
                Some(s3) => match parse_i64(s3) {
                    None => None,
                    Some((amount, s4)) => match parse_lit(s4, ",\"timestamp\":\""@) {
                        None => None,
                        Some(s5) => match parse_str(s5) {
                            None => None,
                            Some((stamp, s6)) => match iso_read(stamp) {
                            None => None,
                            Some(timestamp) => match parse_lit(
                                s6,
                                ",\"description\":\""@,
                            ) {
                                None => None,
                                Some(s7) => match parse_str(s7) {
                                    None => None,
                                    Some((description, s8)) => match parse_lit(
                                        s8,
                                        ",\"balance_after\":"@,
                                    ) {
                                        None => None,
                                        Some(s9) => match parse_i64(s9) {
                                            None => None,
                                            Some((balance_after, s10)) => match parse_lit(
                                                s10,
                                                "}"@,
                                            ) {
                                                None => None,
                                                Some(s11) => Some(
                                                    (
                                                        TransactionView {
                                                            transaction_type: kind,
                                                            amount,
                                                            timestamp,
                                                            description,
                                                            balance_after,
                                                        },
                                                        s11,
                                                    ),
                                                ),
                                            },
                                            },
                                        },
                                    },
                                },
                            },
                        },
                    },
                },
            },
        },
    }
}

/// Reads the transactions after the first, up to the end of the document.
pub open spec fn parse_more(s: Seq<char>) -> Option<(Seq<TransactionView>, Seq<char>)>
    decreases s.len(),
{
    match parse_lit(s, "\n]}\n"@) {
        Some(r) => Some((seq![], r)),
        None => match parse_lit(s, ","@) {
            None => None,
            Some(s1) => match parse_tx(s1) {
                None => None,
                Some((t, s2)) => if s2.len() < s.len() {
                    match parse_more(s2) {
                        None => None,
                        Some((l, r)) => Some((seq![t] + l, r)),
                    }
                } else {
                    None
                },
            },
        },
    }
}

/// Reads the transactions up to the end of the document.
pub open spec fn parse_txs(s: Seq<char>) -> Option<(Seq<TransactionView>, Seq<char>)> {
    match parse_lit(s, "\n]}\n"@) {
        Some(r) => Some((seq![], r)),
        None => match parse_tx(s) {
            None => None,
            Some((t, s1)) => match parse_more(s1) {
                None => None,
                Some((l, r)) => Some((seq![t] + l, r)),
            },
        },
    }
}

/// Reads a whole document.
pub open spec fn parse_wallet(s: Seq<char>) -> Option<WalletView> {
    match parse_lit(s, "{\"name\":\""@) {
        None => None,
        Some(s1) => match parse_str(s1) {
            None => None,
            Some((name, s2)) => match parse_lit(s2, ",\"balance\":"@) {
                None => None,
                Some(s3) => match parse_i64(s3) {
                    None => None,
                    Some((balance, s4)) => match parse_lit(s4, ",\"transactions\":["@) {
                        None => None,
                        Some(s5) => match parse_txs(s5) {
                            None => None,
                            Some((transactions, s6)) => if s6.len() == 0 {
                                Some(WalletView { name, balance, transactions })
                            } else {
                                None
                            },
                        },
                    },
                },
            },
        },
    }
}

/// The wallet a saved text describes: none where the text does not read as
/// a document or the wallet it reads as is not valid.
pub open spec fn decode(s: Seq<char>) -> Option<WalletView> {
    match parse_wallet(s) {
        Some(w) => if wallet_valid(w) {
            Some(w)
        } else {
            None
        },
        None => None,
    }
}

// ----------------------------------------------------------------- writing
proof fn lemma_esc_text_push(s: Seq<char>, c: char)
    ensures
        esc_text(s.push(c)) == esc_text(s) + esc_char(c),
    decreases s.len(),
{
    if s.len() == 0 {
        assert(s.push(c).drop_first() =~= Seq::<char>::empty());
        assert(s.push(c)[0] == c);
        assert(esc_text(Seq::<char>::empty()) =~= Seq::<char>::empty());
        assert(esc_text(s.push(c)) =~= esc_char(c));
        assert(esc_text(s) + esc_char(c) =~= esc_char(c));
    } else {
        lemma_esc_text_push(s.drop_first(), c);
        assert(s.push(c).drop_first() =~= s.drop_first().push(c));
        assert(esc_text(s.push(c)) =~= esc_text(s) + esc_char(c));
    }
}

proof fn lemma_more_text_push(l: Seq<TransactionView>, t: TransactionView)
    ensures
        more_text(l.push(t)) == more_text(l) + (","@ + tx_text(t)),
    decreases l.len(),
{
    if l.len() == 0 {
        assert(l.push(t).drop_first() =~= Seq::<TransactionView>::empty());
        assert(l.push(t)[0] == t);
        assert(more_text(Seq::<TransactionView>::empty()) =~= Seq::<char>::empty());
        assert(more_text(l.push(t)) =~= more_text(l) + (","@ + tx_text(t)));
    } else {
        lemma_more_text_push(l.drop_first(), t);
        assert(l.push(t).drop_first() =~= l.drop_first().push(t));
        assert(more_text(l.push(t)) =~= more_text(l) + (","@ + tx_text(t)));
    }
}

proof fn lemma_txs_text_push(l: Seq<TransactionView>, t: TransactionView)
    ensures
        txs_text(l.push(t)) == txs_text(l) + if l.len() == 0 {
            tx_text(t)
        } else {
            ","@ + tx_text(t)
        },
{
    if l.len() == 0 {
        assert(l.push(t).drop_first() =~= Seq::<TransactionView>::empty());
        assert(txs_text(l.push(t)) =~= tx_text(t));
        assert(txs_text(l) =~= Seq::<char>::empty());
        assert(txs_text(l) + tx_text(t) =~= tx_text(t));
    } else {
        lemma_more_text_push(l.drop_first(), t);
        assert(l.push(t).drop_first() =~= l.drop_first().push(t));
        assert(txs_text(l.push(t)) =~= txs_text(l) + (","@ + tx_text(t)));
    }
}

/// The characters of `s`, in order.
pub(crate) fn chars_of(s: &str) -> (r: Vec<char>)
    ensures
        r@ == s@,
{
    let mut out: Vec<char> = Vec::new();
    push_lit(&mut out, s);
    assert(Seq::<char>::empty() + s@ =~= s@);
    out
}

/// Relies on `String`'s `FromIterator<&char>`: the string made of the
/// characters of `v`, in order.
#[verifier::external_body]
pub(crate) fn string_of(v: &Vec<char>) -> (r: String)
    ensures
        r@ == v@,
{
    v.iter().collect()
}

fn push_lit(out: &mut Vec<char>, lit: &str)
    ensures
        final(out)@ == old(out)@ + lit@,
{
    let ghost start = out@;
    let n = lit.unicode_len();
    let mut j: usize = 0;
    while j < n
        invariant
            n == lit@.len(),
            j <= n,
            out@ == start + lit@.take(j as int),
        decreases n - j,
    {
        let c = lit.get_char(j);
        out.push(c);
        j = j + 1;
        assert(out@ =~= start + lit@.take(j as int));
    }
    assert(lit@.take(n as int) =~= lit@);
}

pub(crate) fn digit_char_of(d: u64) -> (c: char)
    requires
        d < 10,
    ensures
        c == digit_char(d as int),
{
    if d == 0 {
        '0'
    } else if d == 1 {
        '1'
    } else if d == 2 {
        '2'
    } else if d == 3 {
        '3'
    } else if d == 4 {
        '4'
    } else if d == 5 {
        '5'
    } else if d == 6 {
        '6'
    } else if d == 7 {
        '7'
    } else if d == 8 {
        '8'
    } else {
        '9'
    }
}

pub(crate) fn push_nat(out: &mut Vec<char>, n: u64)
    ensures
        final(out)@ == old(out)@ + nat_text(n as nat),
    decreases n,
{
    let ghost start = out@;
    if n >= 10 {
        push_nat(out, n / 10);
    }
    out.push(digit_char_of(n % 10));
    assert(out@ =~= start + nat_text(n as nat));
}

fn push_int(out: &mut Vec<char>, v: i64)
    ensures
        final(out)@ == old(out)@ + int_text(v as int),
{
    let ghost start = out@;
    if v < 0 {
        out.push('-');
        let m: u64 = if v == i64::MIN {
            9223372036854775808
        } else {
            (-v) as u64
        };
        push_nat(out, m);
        assert(out@ =~= start + int_text(v as int));
    } else {
        push_nat(out, v as u64);
    }
}

fn push_esc(out: &mut Vec<char>, t: &Vec<char>)
    ensures
        final(out)@ == old(out)@ + esc_text(t@),
{
    let ghost start = out@;
    let mut i: usize = 0;
    while i < t.len()
        invariant
            i <= t.len(),
            out@ == start + esc_text(t@.take(i as int)),
        decreases t.len() - i,
    {
        let c = t[i];
        proof {
            lemma_esc_text_push(t@.take(i as int), c);
            assert(t@.take(i as int).push(c) =~= t@.take(i + 1));
        }
        if c == '"' {
            out.push('\\');
            out.push('"');
        } else if c == '\\' {
            out.push('\\');
            out.push('\\');
        } else if c == '\n' {
            out.push('\\');
            out.push('n');
        } else if c == '\r' {
            out.push('\\');
            out.push('r');
        } else if c == '\t' {
            out.push('\\');
            out.push('t');
        } else {
            out.push(c);
        }
        i = i + 1;
        assert(out@ =~= start + esc_text(t@.take(i as int)));
    }
    assert(t@.take(i as int) =~= t@);
}

#[verifier::spinoff_prover]
#[verifier::rlimit(40)]
fn push_tx(out: &mut Vec<char>, t: &Transaction) -> (r: bool)
    ensures
        r == (iso_of(t.timestamp) is Some),
        r ==> final(out)@ == old(out)@ + tx_text(t@),
{
    let ghost start = out@;
    push_lit(out, "\n  {\"type\":\"");
    match t.transaction_type {
        TransactionType::Credit => push_lit(out, "Credit"),
        TransactionType::Debit => push_lit(out, "Debit"),
    }
    push_lit(out, "\",\"amount\":");
    push_int(out, t.amount);
    push_lit(out, ",\"timestamp\":\"");
    let stamp = match iso_text(t.timestamp) {
        Some(x) => x,
        None => {
            return false;
        },
    };
    let sc = chars_of(stamp.as_str());
    push_esc(out, &sc);
    out.push('"');
    push_lit(out, ",\"description\":\"");
    let d = chars_of(t.description.as_str());
    push_esc(out, &d);
    out.push('"');
    push_lit(out, ",\"balance_after\":");
    push_int(out, t.balance_after);
    push_lit(out, "}");
    assert(out@ =~= start + tx_text(t@));
    true
}

impl Wallet {
    /// The saved form of this wallet: a JSON-style document with its name,
    /// its balance and its whole log in order. Fails with `IoError`, writing
    /// nothing, where a timestamp lies outside the range chrono can write.
    #[verifier::spinoff_prover]
    #[verifier::rlimit(40)]
    pub fn save(&self) -> (r: Result<String, WalletError>)
        ensures
            r is Ok <==> writable(self@.transactions),
            r is Ok ==> r->Ok_0@ == wallet_text(self@),
            r is Err ==> r == Err::<String, WalletError>(WalletError::IoError),
    {
        let mut out: Vec<char> = Vec::new();
        push_lit(&mut out, "{\"name\":\"");
        let name = chars_of(self.name.as_str());
        push_esc(&mut out, &name);
        out.push('"');
        push_lit(&mut out, ",\"balance\":");
        push_int(&mut out, self.balance);
        push_lit(&mut out, ",\"transactions\":[");
        let ghost head = out@;
        let ghost log = self@.transactions;
        let mut i: usize = 0;
        while i < self.transactions.len()
            invariant
                i <= self.transactions.len(),
                log == self@.transactions,
                out@ == head + txs_text(log.take(i as int)),
                forall|k: int| 0 <= k < i ==> (iso_of(#[trigger] log[k].timestamp) is Some),
            decreases self.transactions.len() - i,
        {
            proof {
                lemma_txs_text_push(log.take(i as int), log[i as int]);
                assert(log.take(i as int).push(log[i as int]) =~= log.take(i + 1));
            }
            if i > 0 {
                push_lit(&mut out, ",");
            }
            if !push_tx(&mut out, &self.transactions[i]) {
                assert(log[i as int].timestamp == self.transactions@[i as int].timestamp);
                return Err(WalletError::IoError);
            }
            i = i + 1;
            assert(out@ =~= head + txs_text(log.take(i as int)));
        }
        assert(log.take(i as int) =~= log);
        push_lit(&mut out, "\n]}\n");
        assert(out@ =~= wallet_text(self@));
        Ok(string_of(&out))
    }
}

// ----------------------------------------------------------------- reading
proof fn lemma_lead_digits_props(s: Seq<char>)
    ensures
        lead_digits(s) <= s.len(),
        forall|j: int| 0 <= j < lead_digits(s) ==> is_digit(#[trigger] s[j]),
        lead_digits(s) == s.len() || !is_digit(s[lead_digits(s) as int]),
    decreases s.len(),
{
    if s.len() > 0 && is_digit(s[0]) {
        let t = s.drop_first();
        lemma_lead_digits_props(t);
        assert forall|j: int| 0 <= j < lead_digits(s) implies is_digit(#[trigger] s[j]) by {
            if j > 0 {
                assert(s[j] == t[j - 1]);
            }
        }
    }
}

proof fn lemma_digits_mono(d: Seq<char>, m: int)
    requires
        0 <= m <= d.len(),
        forall|j: int| 0 <= j < d.len() ==> is_digit(#[trigger] d[j]),
    ensures
        0 <= digits_value(d.take(m)) <= digits_value(d),
    decreases d.len(),
{
    if m == d.len() {
        assert(d.take(m) =~= d);
        if d.len() > 0 {
            lemma_digits_mono(d.drop_last(), m - 1);
            assert(d.drop_last().take(m - 1) =~= d.drop_last());
        } else {
            assert(digits_value(d) == 0);
        }
    } else {
        let e = d.drop_last();
        lemma_digits_mono(e, m);
        assert(e.take(m) =~= d.take(m));
        assert(is_digit(d[d.len() - 1]));
    }
}

fn expect(s: &Vec<char>, pos: usize, lit: &str) -> (r: Option<usize>)
    requires
        pos <= s.len(),
    ensures
        match r {
            Some(p) => p == pos + lit@.len() && p <= s.len() && parse_lit(
                s@.skip(pos as int),
                lit@,
            ) == Some(s@.skip(p as int)),
            None => parse_lit(s@.skip(pos as int), lit@) is None,
        },
{
    let n = lit.unicode_len();
    if n > s.len() - pos {
        return None;
    }
    let ghost sfx = s@.skip(pos as int);
    let mut j: usize = 0;
    while j < n
        invariant
            n == lit@.len(),
            pos + n <= s.len(),
            j <= n,
            sfx == s@.skip(pos as int),
            forall|k: int| 0 <= k < j ==> s@[pos + k] == lit@[k],
        decreases n - j,
    {
        if s[pos + j] != lit.get_char(j) {
            assert(sfx.take(n as int)[j as int] != lit@[j as int]);
            return None;
        }
        j = j + 1;
    }
    assert(sfx.take(n as int) =~= lit@);
    assert(sfx.skip(n as int) =~= s@.skip(pos + n));
    Some(pos + n)
}

#[verifier::rlimit(40)]
pub(crate) fn parse_i64_at(s: &Vec<char>, pos: usize) -> (r: Option<(i64, usize)>)
    requires
        pos <= s.len(),
    ensures
        match r {
            Some((v, p)) => pos <= p <= s.len() && parse_i64(s@.skip(pos as int)) == Some(
                (v, s@.skip(p as int)),
            ),
            None => parse_i64(s@.skip(pos as int)) is None,
        },
{
    let ghost sfx = s@.skip(pos as int);
    let neg = pos < s.len() && s[pos] == '-';
    let start: usize = if neg {
        pos + 1
    } else {
        pos
    };
    let ghost body = s@.skip(start as int);
    assert(body =~= if neg {
        sfx.drop_first()
    } else {
        sfx
    });
    let limit: u64 = if neg {
        9223372036854775808
    } else {
        9223372036854775807
    };
    proof {
        lemma_lead_digits_props(body);
    }
    let mut acc: u64 = 0;
    let mut i: usize = start;
    while i < s.len() && '0' <= s[i] && s[i] <= '9'
        invariant
            start <= i <= s.len(),
            pos <= start,
            body == s@.skip(start as int),
            sfx == s@.skip(pos as int),
            neg == (sfx.len() > 0 && sfx[0] == '-'),
            body == if neg {
                sfx.drop_first()
            } else {
                sfx
            },
            limit == if neg {
                9223372036854775808u64
            } else {
                9223372036854775807u64
            },
            forall|k: int| 0 <= k < i - start ==> is_digit(#[trigger] body[k]),
            acc as int == digits_value(body.take(i - start)),
            acc <= limit,
        decreases s.len() - i,
    {
        assert(is_digit(s@[i as int]));
        let d: u64 = (s[i] as u32 - 48) as u64;
        assert(d <= 9);
        assert(body.take(i + 1 - start).drop_last() =~= body.take(i - start));
        assert(body[i - start] == s@[i as int]);
        if acc > (limit - d) / 10 {
            proof {
                lemma_lead_digits_props(body);
                let k = lead_digits(body) as int;
                assert(k >= i + 1 - start) by {
                    if k < i + 1 - start {
                        assert(is_digit(body[k]));
                    }
                }
                let full = body.take(k);
                assert forall|j: int| 0 <= j < full.len() implies is_digit(#[trigger] full[j]) by {
                    assert(full[j] == body[j]);
                }
                lemma_digits_mono(full, i + 1 - start);
                assert(full.take(i + 1 - start) =~= body.take(i + 1 - start));
                assert(acc * 10 + d > limit) by (nonlinear_arith)
                    requires
                        acc > (limit - d) / 10,
                        d <= 9,
                        limit >= 9,
                ;
            }
            return None;
        }
        assert(acc * 10 + d <= limit) by (nonlinear_arith)
            requires
                acc <= (limit - d) / 10,
                d <= 9,
                limit >= 9,
        ;
        acc = acc * 10 + d;
        i = i + 1;
    }
    let k: usize = i - start;
    proof {
        lemma_lead_digits(body, k as int);
        assert(body.skip(k as int) =~= s@.skip(i as int));
    }
    if k == 0 {
        return None;
    }
    let v: i64 = if neg {
        if acc == 9223372036854775808 {
            i64::MIN
        } else {
            -(acc as i64)
        }
    } else {
        acc as i64
    };
    Some((v, i))
}

fn unesc_of(c: char) -> (r: Option<char>)
    ensures
        r == unesc(c),
{
    if c == '"' {
        Some('"')
    } else if c == '\\' {
        Some('\\')
    } else if c == 'n' {
        Some('\n')
    } else if c == 'r' {
        Some('\r')
    } else if c == 't' {
        Some('\t')
    } else {
        None
    }
}

fn parse_str_at(s: &Vec<char>, pos: usize) -> (r: Option<(Vec<char>, usize)>)
    requires
        pos <= s.len(),
    ensures
        match r {
            Some((t, p)) => pos <= p <= s.len() && parse_str(s@.skip(pos as int)) == Some(
                (t@, s@.skip(p as int)),
            ),
            None => parse_str(s@.skip(pos as int)) is None,
        },
{
    let mut out: Vec<char> = Vec::new();
    let mut i: usize = pos;
    while i < s.len()
        invariant
            pos <= i <= s.len(),
            parse_str(s@.skip(pos as int)) == match parse_str(s@.skip(i as int)) {
                Some((t, rest)) => Some((out@ + t, rest)),
                None => None,
            },
        decreases s.len() - i,
    {
        let ghost cur = s@.skip(i as int);
        let c = s[i];
        assert(cur[0] == c);
        assert(cur.drop_first() =~= s@.skip(i + 1));
        if c == '"' {
            assert(out@ + Seq::<char>::empty() =~= out@);
            return Some((out, i + 1));
        } else if c == '\\' {
            if i + 1 >= s.len() {
                return None;
            }
            assert(cur[1] == s@[i + 1]);
            match unesc_of(s[i + 1]) {
                None => {
                    return None;
                },
                Some(u) => {
                    assert(cur.skip(2) =~= s@.skip(i + 2));
                    let ghost before = out@;
                    out.push(u);
                    proof {
                        match parse_str(s@.skip(i + 2)) {
                            Some((t, rest)) => {
                                assert(before.push(u) + t =~= before + (seq![u] + t));
                            },
                            None => {},
                        }
                    }
                    i = i + 2;
                },
            }
        } else {
            let ghost before = out@;
            out.push(c);
            proof {
                match parse_str(s@.skip(i + 1)) {
                    Some((t, rest)) => {
                        assert(before.push(c) + t =~= before + (seq![c] + t));
                    },
                    None => {},
                }
            }
            i = i + 1;
        }
    }
    assert(s@.skip(i as int).len() == 0);
    None
}

fn parse_kind_at(s: &Vec<char>, pos: usize) -> (r: Option<(TransactionType, usize)>)
    requires
        pos <= s.len(),
    ensures
        match r {
            Some((k, p)) => pos <= p <= s.len() && parse_kind(s@.skip(pos as int)) == Some(
                (k, s@.skip(p as int)),
            ),
            None => parse_kind(s@.skip(pos as int)) is None,
        },
{
    match expect(s, pos, "Credit") {
        Some(p) => Some((TransactionType::Credit, p)),
        None => match expect(s, pos, "Debit") {
            Some(p) => Some((TransactionType::Debit, p)),
            None => None,
        },
    }
}

#[verifier::spinoff_prover]
#[verifier::rlimit(40)]
fn parse_tx_at(s: &Vec<char>, pos: usize) -> (r: Option<(Transaction, usize)>)
    requires
        pos <= s.len(),
    ensures
        match r {
            Some((t, p)) => pos <= p <= s.len() && parse_tx(s@.skip(pos as int)) == Some(
                (t@, s@.skip(p as int)),
            ),
            None => parse_tx(s@.skip(pos as int)) is None,
        },
{
    let p1 = match expect(s, pos, "\n  {\"type\":\"") {
        Some(p) => p,
        None => {
            return None;
        },
    };
    let (transaction_type, p2) = match parse_kind_at(s, p1) {
        Some(x) => x,
        None => {
            return None;
        },
    };
    let p3 = match expect(s, p2, "\",\"amount\":") {
        Some(p) => p,
        None => {
            return None;
        },
    };
    let (amount, p4) = match parse_i64_at(s, p3) {
        Some(x) => x,
        None => {
            return None;
        },
    };
    let p5 = match expect(s, p4, ",\"timestamp\":\"") {
        Some(p) => p,
        None => {
            return None;
        },
    };
    let (stamp, p6) = match parse_str_at(s, p5) {
        Some(x) => x,
        None => {
            return None;
        },
    };
    let stamp_text = string_of(&stamp);
    let timestamp = match read_iso(stamp_text.as_str()) {
        Some(v) => v,
        None => {
            return None;
        },
    };
    let p7 = match expect(s, p6, ",\"description\":\"") {
        Some(p) => p,
        None => {
            return None;
        },
    };
    let (text, p8) = match parse_str_at(s, p7) {
        Some(x) => x,
        None => {
            return None;
        },
    };
    let p9 = match expect(s, p8, ",\"balance_after\":") {
        Some(p) => p,
        None => {
            return None;
        },
    };
    let (balance_after, p10) = match parse_i64_at(s, p9) {
        Some(x) => x,
        None => {
            return None;
        },
    };
    let p11 = match expect(s, p10, "}") {
        Some(p) => p,
        None => {
            return None;
        },
    };
    let description = string_of(&text);
    Some((Transaction { transaction_type, amount, timestamp, description, balance_after }, p11))
}

#[verifier::spinoff_prover]
#[verifier::rlimit(40)]
fn parse_txs_at(s: &Vec<char>, pos: usize) -> (r: Option<(Vec<Transaction>, usize)>)
    requires
        pos <= s.len(),
    ensures
        match r {
            Some((v, p)) => pos <= p <= s.len() && parse_txs(s@.skip(pos as int)) == Some(
                (log_view(v@), s@.skip(p as int)),
            ),
            None => parse_txs(s@.skip(pos as int)) is None,
        },
{
    if let Some(p) = expect(s, pos, "\n]}\n") {
        let v: Vec<Transaction> = Vec::new();
        assert(log_view(v@) =~= seq![]);
        return Some((v, p));
    }
    let (first, p1) = match parse_tx_at(s, pos) {
        Some(x) => x,
        None => {
            return None;
        },
    };
    let mut v: Vec<Transaction> = Vec::new();
    v.push(first);
    assert(log_view(v@) =~= seq![first@]);
    let mut i: usize = p1;
    loop
        invariant
            pos <= i <= s.len(),
            parse_txs(s@.skip(pos as int)) == match parse_more(s@.skip(i as int)) {
                Some((l, rest)) => Some((log_view(v@) + l, rest)),
                None => None,
            },
        decreases s.len() - i,
    {
        if let Some(p) = expect(s, i, "\n]}\n") {
            assert(log_view(v@) + seq![] =~= log_view(v@));
            return Some((v, p));
        }
        let p2 = match expect(s, i, ",") {
            Some(p) => p,
            None => {
                return None;
            },
        };
        let (t, p3) = match parse_tx_at(s, p2) {
            Some(x) => x,
            None => {
                return None;
            },
        };
        proof {
            reveal_strlit(",");
        }
        let ghost before = log_view(v@);
        v.push(t);
        assert(log_view(v@) =~= before.push(t@));
        proof {
            match parse_more(s@.skip(p3 as int)) {
                Some((l, rest)) => {
                    assert(before.push(t@) + l =~= before + (seq![t@] + l));
                },
                None => {},
            }
        }
        i = p3;
    }
}

#[verifier::spinoff_prover]
#[verifier::rlimit(40)]
fn parse_wallet_at(s: &Vec<char>) -> (r: Option<Wallet>)
    ensures
        match r {
            Some(w) => parse_wallet(s@) == Some(w@),
            None => parse_wallet(s@) is None,
        },
{
    assert(s@.skip(0) =~= s@);
    let p1 = match expect(s, 0, "{\"name\":\"") {
        Some(p) => p,
        None => {
            return None;
        },
    };
    let (text, p2) = match parse_str_at(s, p1) {
        Some(x) => x,
        None => {
            return None;
        },
    };
    let p3 = match expect(s, p2, ",\"balance\":") {
        Some(p) => p,
        None => {
            return None;
        },
    };
    let (balance, p4) = match parse_i64_at(s, p3) {
        Some(x) => x,
        None => {
            return None;
        },
    };
    let p5 = match expect(s, p4, ",\"transactions\":[") {
        Some(p) => p,
        None => {
            return None;
        },
    };
    let (transactions, p6) = match parse_txs_at(s, p5) {
        Some(x) => x,
        None => {
            return None;
        },
    };
    if p6 != s.len() {
        return None;
    }
    let name = string_of(&text);
    Some(Wallet { name, balance, transactions })
}

#[verifier::spinoff_prover]
fn check_valid(w: &Wallet) -> (r: bool)
    ensures
        r == w.wf(),
{
    let ghost log = w@.transactions;
    let n = w.transactions.len();
    let mut i: usize = 0;
    while i < n
        invariant
            n == w.transactions.len(),
            log == w@.transactions,
            log.len() == n,
            i <= n,
            forall|k: int|
                0 <= k < i ==> {
                    &&& #[trigger] log[k].amount > 0
                    &&& log[k].balance_after as int == crate::wallet::balance_before(log, k)
                        + crate::wallet::signed_amount(log[k])
                    &&& log[k].balance_after >= 0
                    &&& k > 0 ==> log[k - 1].timestamp <= log[k].timestamp
                },
        decreases n - i,
    {
        let t = &w.transactions[i];
        let before: i64 = if i == 0 {
            0
        } else {
            w.transactions[i - 1].balance_after
        };
        let change: i128 = match t.transaction_type {
            TransactionType::Credit => t.amount as i128,
            TransactionType::Debit => -(t.amount as i128),
        };
        let ordered = i == 0 || w.transactions[i - 1].timestamp <= t.timestamp;
        if !(t.amount > 0 && t.balance_after as i128 == before as i128 + change
            && t.balance_after >= 0 && ordered) {
            assert(log[i as int].amount == t.amount);
            return false;
        }
        proof {
            let ghost e = log[i as int];
            assert(e == t@);
            assert(e.amount > 0);
            assert(e.balance_after as int == crate::wallet::balance_before(log, i as int)
                + crate::wallet::signed_amount(e));
            assert(i > 0 ==> log[i - 1].timestamp <= e.timestamp);
        }
        i = i + 1;
    }
    let last: i64 = if n == 0 {
        0
    } else {
        w.transactions[n - 1].balance_after
    };
    w.balance == last
}

impl Wallet {
    /// Reads a saved wallet. `None` stands for a saved form that does not
    /// exist yet and gives `NotFound`. A text that does not read as a saved
    /// wallet, or describes one whose balance and log disagree, gives
    /// `CorruptData`; any other text gives back the wallet it describes.
    pub fn load(data: Option<&str>) -> (r: Result<Wallet, WalletError>)
        ensures
            data is None ==> r == Err::<Wallet, WalletError>(WalletError::NotFound),
            data is Some ==> match decode(data->Some_0@) {
                Some(v) => r is Ok && r->Ok_0@ == v && r->Ok_0.wf(),
                None => r == Err::<Wallet, WalletError>(WalletError::CorruptData),
            },
    {
        match data {
            None => Err(WalletError::NotFound),
            Some(text) => {
                let chars = chars_of(text);
                match parse_wallet_at(&chars) {
                    None => Err(WalletError::CorruptData),
                    Some(w) => {
                        if check_valid(&w) {
                            Ok(w)
                        } else {
                            Err(WalletError::CorruptData)
                        }
                    },
                }
            },
        }
    }
}

// ------------------------------------------------------------------ proofs
pub(crate) proof fn lemma_digit(d: int)
    requires
        0 <= d < 10,
    ensures
        is_digit(digit_char(d)),
        digit_val(digit_char(d)) == d,
{
}

pub(crate) proof fn lemma_nat_text(n: nat)
    ensures
        nat_text(n).len() > 0,
        forall|i: int| 0 <= i < nat_text(n).len() ==> is_digit(#[trigger] nat_text(n)[i]),
        digits_value(nat_text(n)) == n,
    decreases n,
{
    if n < 10 {
        lemma_digit(n as int);
        assert(nat_text(n).drop_last() =~= Seq::<char>::empty());
        assert(digits_value(Seq::<char>::empty()) == 0);
        assert(nat_text(n).last() == digit_char(n as int));
    } else {
        lemma_nat_text(n / 10);
        lemma_digit((n % 10) as int);
        let q = n / 10;
        let r = n % 10;
        assert(nat_text(n).drop_last() =~= nat_text(q));
        assert(nat_text(n).last() == digit_char(r as int));
        assert(digits_value(nat_text(n)) == digits_value(nat_text(q)) * 10 + digit_val(
            nat_text(n).last(),
        ));
        assert(q * 10 + r == n) by (nonlinear_arith)
            requires
                q == n / 10,
                r == n % 10,
        ;
    }
}

pub(crate) proof fn lemma_lead_digits(s: Seq<char>, m: int)
    requires
        0 <= m <= s.len(),
        forall|j: int| 0 <= j < m ==> is_digit(#[trigger] s[j]),
        m == s.len() || !is_digit(s[m]),
    ensures
        lead_digits(s) == m,
    decreases m,
{
    if m > 0 {
        let t = s.drop_first();
        assert forall|j: int| 0 <= j < m - 1 implies is_digit(#[trigger] t[j]) by {
            assert(t[j] == s[j + 1]);
        }
        assert(is_digit(s[0]));
        lemma_lead_digits(t, m - 1);
    }
}

proof fn lemma_i64_round_trip(v: i64, rest: Seq<char>)
    requires
        rest.len() == 0 || !is_digit(rest[0]),
    ensures
        parse_i64(int_text(v as int) + rest) == Some((v, rest)),
{
    let n: nat = if v < 0 {
        (-v) as nat
    } else {
        v as nat
    };
    lemma_nat_text(n);
    let d = nat_text(n);
    let body = d + rest;
    let s = int_text(v as int) + rest;
    lemma_lead_digits(body, d.len() as int);
    assert(body.take(d.len() as int) =~= d);
    assert(body.skip(d.len() as int) =~= rest);
    if v < 0 {
        assert(s.drop_first() =~= body);
    } else {
        assert(s =~= body);
        assert(is_digit(d[0]));
    }
}

#[verifier::spinoff_prover]
#[verifier::rlimit(40)]
proof fn lemma_str_round_trip(t: Seq<char>, rest: Seq<char>)
    ensures
        parse_str(esc_text(t) + (quote() + rest)) == Some((t, rest)),
    decreases t.len(),
{
    let s = esc_text(t) + (quote() + rest);
    if t.len() == 0 {
        assert(s =~= quote() + rest);
        assert(s.drop_first() =~= rest);
        assert(t =~= seq![]);
    } else {
        let c = t[0];
        let tail = t.drop_first();
        let s2 = esc_text(tail) + (quote() + rest);
        lemma_str_round_trip(tail, rest);
        assert(s =~= esc_char(c) + s2);
        assert(seq![c] + tail =~= t);
        if esc_char(c).len() == 2 {
            assert(s.skip(2) =~= s2);
        } else {
            assert(s.drop_first() =~= s2);
        }
    }
}

proof fn lemma_lit(lit: Seq<char>, rest: Seq<char>)
    ensures
        parse_lit(lit + rest, lit) == Some(rest),
{
    assert((lit + rest).take(lit.len() as int) =~= lit);
    assert((lit + rest).skip(lit.len() as int) =~= rest);
}

proof fn lemma_kind(k: TransactionType, rest: Seq<char>)
    ensures
        parse_kind(kind_text(k) + rest) == Some((k, rest)),
{
    lemma_lit(kind_text(k), rest);
    if k == TransactionType::Debit {
        reveal_strlit("Credit");
        reveal_strlit("Debit");
        let s = kind_text(k) + rest;
        if 6 <= s.len() {
            assert(s.take(6)[0] != "Credit"@[0]);
        }
    }
}

#[verifier::spinoff_prover]
#[verifier::rlimit(40)]
proof fn lemma_tx_round_trip(t: TransactionView, rest: Seq<char>)
    requires
        stamp_round_trips(t.timestamp),
    ensures
        parse_tx(tx_text(t) + rest) == Some((t, rest)),
{
    reveal_strlit(",\"timestamp\":\"");
    reveal_strlit(",\"description\":\"");
    reveal_strlit("}");
    let s10 = "}"@ + rest;
    let s9 = int_text(t.balance_after as int) + s10;
    let s8 = ",\"balance_after\":"@ + s9;
    let s7 = esc_text(t.description) + (quote() + s8);
    let s6 = ",\"description\":\""@ + s7;
    let s5 = esc_text(stamp_text(t.timestamp)) + (quote() + s6);
    let s4 = ",\"timestamp\":\""@ + s5;
    let s3 = int_text(t.amount as int) + s4;
    let s2 = "\",\"amount\":"@ + s3;
    let s1 = kind_text(t.transaction_type) + s2;
    let s0 = "\n  {\"type\":\""@ + s1;
    assert(tx_text(t) + rest =~= s0);
    lemma_lit("\n  {\"type\":\""@, s1);
    lemma_kind(t.transaction_type, s2);
    lemma_lit("\",\"amount\":"@, s3);
    lemma_i64_round_trip(t.amount, s4);
    lemma_lit(",\"timestamp\":\""@, s5);
    lemma_str_round_trip(stamp_text(t.timestamp), s6);
    lemma_lit(",\"description\":\""@, s7);
    lemma_str_round_trip(t.description, s8);
    lemma_lit(",\"balance_after\":"@, s9);
    lemma_i64_round_trip(t.balance_after, s10);
    lemma_lit("}"@, rest);
}

#[verifier::spinoff_prover]
#[verifier::rlimit(40)]
proof fn lemma_more_round_trip(log: Seq<TransactionView>, tail: Seq<char>)
    requires
        stamps_round_trip(log),
    ensures
        parse_more(more_text(log) + ("\n]}\n"@ + tail)) == Some((log, tail)),
    decreases log.len(),
{
    let s = more_text(log) + ("\n]}\n"@ + tail);
    if log.len() == 0 {
        assert(s =~= "\n]}\n"@ + tail);
        lemma_lit("\n]}\n"@, tail);
        assert(log =~= seq![]);
    } else {
        reveal_strlit("\n]}\n");
        reveal_strlit(",");
        let s2 = more_text(log.drop_first()) + ("\n]}\n"@ + tail);
        let s1 = tx_text(log[0]) + s2;
        assert(s =~= ","@ + s1);
        assert(s[0] == ',');
        lemma_lit(","@, s1);
        assert(stamp_round_trips(log[0].timestamp));
        lemma_tx_round_trip(log[0], s2);
        assert forall|i: int| 0 <= i < log.drop_first().len() implies stamp_round_trips(
            #[trigger] log.drop_first()[i].timestamp,
        ) by {
            assert(log.drop_first()[i] == log[i + 1]);
        }
        lemma_more_round_trip(log.drop_first(), tail);
        assert(seq![log[0]] + log.drop_first() =~= log);
    }
}

#[verifier::spinoff_prover]
#[verifier::rlimit(40)]
proof fn lemma_txs_round_trip(log: Seq<TransactionView>, tail: Seq<char>)
    requires
        stamps_round_trip(log),
    ensures
        parse_txs(txs_text(log) + ("\n]}\n"@ + tail)) == Some((log, tail)),
{
    let s = txs_text(log) + ("\n]}\n"@ + tail);
    if log.len() == 0 {
        assert(s =~= "\n]}\n"@ + tail);
        lemma_lit("\n]}\n"@, tail);
        assert(log =~= seq![]);
    } else {
        reveal_strlit("\n]}\n");
        reveal_strlit("\n  {\"type\":\"");
        let s1 = more_text(log.drop_first()) + ("\n]}\n"@ + tail);
        assert(s =~= tx_text(log[0]) + s1);
        assert(s[1] == ' ');
        assert(stamp_round_trips(log[0].timestamp));
        lemma_tx_round_trip(log[0], s1);
        assert forall|i: int| 0 <= i < log.drop_first().len() implies stamp_round_trips(
            #[trigger] log.drop_first()[i].timestamp,
        ) by {
            assert(log.drop_first()[i] == log[i + 1]);
        }
        lemma_more_round_trip(log.drop_first(), tail);
        assert(seq![log[0]] + log.drop_first() =~= log);
    }
}

/// Saving then loading gives back the same wallet: every valid wallet reads
/// back from its saved form with the same name, balance and log, field for
/// field and in the same order, wherever chrono reads each timestamp back
/// from the text it wrote for it.
#[verifier::spinoff_prover]
#[verifier::rlimit(40)]
pub proof fn lemma_round_trip(w: WalletView)
    requires
        wallet_valid(w),
        stamps_round_trip(w.transactions),
    ensures
        decode(wallet_text(w)) == Some(w),
{
    reveal_strlit(",\"transactions\":[");
    let s6 = Seq::<char>::empty();
    let s5 = txs_text(w.transactions) + ("\n]}\n"@ + s6);
    let s4 = ",\"transactions\":["@ + s5;
    let s3 = int_text(w.balance as int) + s4;
    let s2 = ",\"balance\":"@ + s3;
    let s1 = esc_text(w.name) + (quote() + s2);
    let s0 = "{\"name\":\""@ + s1;
    assert(wallet_text(w) =~= s0);
    lemma_lit("{\"name\":\""@, s1);
    lemma_str_round_trip(w.name, s2);
    lemma_lit(",\"balance\":"@, s3);
    lemma_i64_round_trip(w.balance, s4);
    lemma_lit(",\"transactions\":["@, s5);
    lemma_txs_round_trip(w.transactions, s6);
}

} // verus!
