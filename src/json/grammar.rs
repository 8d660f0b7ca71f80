use vstd::prelude::*;
use crate::json::value::{Json, keys_unique};

verus! {

/// The ways in which a parse fails.
#[derive(Debug, Clone, Copy, PartialEq, Eq, Structural)]
pub enum ParseError {
    /// A character was needed past the end of the text.
    UnexpectedEndOfInput,
    /// The character where a value should start starts none.
    UnexpectedCharacter,
    /// A run of digits and dots that is not a decimal number.
    InvalidNumber,
    /// A word starting with `t` or `f` that is not `true` or `false`.
    InvalidBoolean,
    /// A word starting with `n` that is not `null`.
    InvalidNull,
    /// An object key that does not start with a quote.
    ExpectedStringKey,
    /// A missing `:` after a key, or neither `,` nor the closing bracket
    /// after an element.
    ExpectedSeparatorOrClose,
}

/// The characters with Unicode's White_Space property.
pub open spec fn is_white_space(c: char) -> bool {
    let u = c as u32;
    (0x9 <= u && u <= 0xd) || u == 0x20 || u == 0x85 || u == 0xa0 || u == 0x1680 || (0x2000 <= u
        && u <= 0x200a) || u == 0x2028 || u == 0x2029 || u == 0x202f || u == 0x205f || u == 0x3000
}

pub open spec fn is_digit(c: char) -> bool {
    '0' <= c && c <= '9'
}

/// The characters of a number's text: digits and dots.
pub open spec fn is_number_char(c: char) -> bool {
    is_digit(c) || c == '.'
}

/// Whether `c` is the lower-case ASCII letter `l` in either case. For the
/// letters of `true`, `false` and `null` this is what Unicode lower-casing
/// gives too: no other character lower-cases to one of them.
pub open spec fn same_letter(c: char, l: char) -> bool {
    c == l || c as u32 + 32 == l as u32
}

/// The length of the longest run of characters meeting `f` from `p` on.
pub open spec fn run_len(s: Seq<char>, p: int, f: spec_fn(char) -> bool) -> nat
    decreases s.len() - p,
{
    if 0 <= p < s.len() && f(s[p]) {
        1 + run_len(s, p + 1, f)
    } else {
        0
    }
}

pub open spec fn white_space() -> spec_fn(char) -> bool {
    |c: char| is_white_space(c)
}

pub open spec fn number_chars() -> spec_fn(char) -> bool {
    |c: char| is_number_char(c)
}

pub open spec fn zero_digit() -> spec_fn(char) -> bool {
    |c: char| c == '0'
}

pub open spec fn other_than(d: char) -> spec_fn(char) -> bool {
    |c: char| c != d
}

/// The number of whitespace characters from `p` on.
pub open spec fn ws_len(s: Seq<char>, p: int) -> nat {
    run_len(s, p, white_space())
}

/// The number of dots in `t`.
pub open spec fn count_dots(t: Seq<char>) -> nat
    decreases t.len(),
{
    if t.len() == 0 {
        0
    } else {
        count_dots(t.drop_last()) + if t.last() == '.' {
            1nat
        } else {
            0nat
        }
    }
}

/// Whether a run of digits and dots reads as a decimal number: at least one
/// digit and at most one dot.
pub open spec fn valid_decimal(t: Seq<char>) -> bool {
    count_dots(t) <= 1 && count_dots(t) < t.len()
}

/// The length of `f` without its trailing zeros.
pub open spec fn trimmed_len(f: Seq<char>) -> nat
    decreases f.len(),
{
    if f.len() > 0 && f.last() == '0' {
        trimmed_len(f.drop_last())
    } else {
        f.len()
    }
}

/// The canonical text of a decimal number written with digits and at most
/// one dot: no leading zeros in the whole part (which is `0` when empty), no
/// trailing zeros in the fraction, and no dot when the fraction is empty.
pub open spec fn canonical_decimal(t: Seq<char>) -> Seq<char> {
    let d = run_len(t, 0, other_than('.')) as int;
    let frac = if d < t.len() {
        t.subrange(d + 1, t.len() as int)
    } else {
        Seq::empty()
    };
    let whole_text = if whole_digits(t).len() == 0 {
        seq!['0']
    } else {
        whole_digits(t)
    };
    let frac_text = frac.subrange(0, trimmed_len(frac) as int);
    if frac_text.len() == 0 {
        whole_text
    } else {
        whole_text + seq!['.'] + frac_text
    }
}

/// The value of a decimal digit.
pub open spec fn digit_value(c: char) -> nat {
    (c as u32 - '0' as u32) as nat
}

/// The number that a run of decimal digits writes.
pub open spec fn digits_value(ds: Seq<char>) -> nat
    decreases ds.len(),
{
    if ds.len() == 0 {
        0
    } else {
        digits_value(ds.drop_last()) * 10 + digit_value(ds.last())
    }
}

pub open spec fn pow10(n: nat) -> nat
    decreases n,
{
    if n == 0 {
        1
    } else {
        10 * pow10((n - 1) as nat)
    }
}

/// 2^1024 - 2^970 in decimal: the least number that rounds to infinity as a
/// 64-bit float, so that every number below it reads as a finite one.
pub open spec fn float_limit() -> Seq<char> {
    "179769313486231580793728971405303415079934132710037826936173778980444968292764750946649017977587207096330286416692887910946555547851940402630657488671505820681908902000708383676273854845817711531764475730270069855571366959622842914819860834936475292719074168444365510704342711559699508093042880177904174497792"@
}

/// The digits of the whole part of a number's text, leading zeros left out.
pub open spec fn whole_digits(t: Seq<char>) -> Seq<char> {
    let d = run_len(t, 0, other_than('.')) as int;
    let whole = t.subrange(0, d);
    let z = run_len(whole, 0, zero_digit()) as int;
    whole.subrange(z, d)
}

/// Whether a number's text reads as a finite 64-bit float: its whole part
/// is below `float_limit` (the fraction, below one, cannot reach it).
pub open spec fn in_float_range(t: Seq<char>) -> bool {
    digits_value(whole_digits(t)) < digits_value(float_limit())
}

/// Whether the characters of `s` from `q` on spell `kw`, ignoring ASCII case.
pub open spec fn keyword_at(s: Seq<char>, q: int, kw: Seq<char>) -> bool {
    q + kw.len() <= s.len() && forall|i: int| 0 <= i < kw.len() ==> same_letter(#[trigger] s[q + i], kw[i])
}

/// Whether `c` opens a boolean: `t` or `f` in either case.
pub open spec fn starts_boolean(c: char) -> bool {
    same_letter(c, 't') || same_letter(c, 'f')
}

/// A quoted text opened by the quote at `q`: its characters and the position
/// after its closing quote, the first later occurrence of the same quote.
pub open spec fn parse_text(s: Seq<char>, q: int) -> Result<(Seq<char>, int), ParseError> {
    let d = s[q];
    let e = q + 1 + run_len(s, q + 1, other_than(d));
    if e >= s.len() {
        Err(ParseError::UnexpectedEndOfInput)
    } else {
        Ok((s.subrange(q + 1, e), e + 1))
    }
}

/// A number from `q`: the longest run of digits and dots, which must read
/// as a decimal number that a finite 64-bit float can hold.
pub open spec fn parse_number(s: Seq<char>, q: int) -> Result<(Json, int), ParseError> {
    let e = q + run_len(s, q, number_chars());
    let t = s.subrange(q, e);
    if valid_decimal(t) && in_float_range(t) {
        Ok((Json::Number(canonical_decimal(t)), e))
    } else {
        Err(ParseError::InvalidNumber)
    }
}

pub open spec fn true_word() -> Seq<char> {
    seq!['t', 'r', 'u', 'e']
}

pub open spec fn false_word() -> Seq<char> {
    seq!['f', 'a', 'l', 's', 'e']
}

pub open spec fn null_word() -> Seq<char> {
    seq!['n', 'u', 'l', 'l']
}

/// A boolean from `q`, whose first character is `t` or `f` in either case:
/// the word that this letter starts, in any case.
pub open spec fn parse_boolean(s: Seq<char>, q: int) -> Result<(Json, int), ParseError> {
    let b = same_letter(s[q], 't');
    let kw = if b {
        true_word()
    } else {
        false_word()
    };
    if q + kw.len() > s.len() {
        Err(ParseError::UnexpectedEndOfInput)
    } else if keyword_at(s, q, kw) {
        Ok((Json::Boolean(b), q + kw.len()))
    } else {
        Err(ParseError::InvalidBoolean)
    }
}

/// `null` from `q`, in any case.
pub open spec fn parse_null(s: Seq<char>, q: int) -> Result<(Json, int), ParseError> {
    if q + 4 > s.len() {
        Err(ParseError::UnexpectedEndOfInput)
    } else if keyword_at(s, q, null_word()) {
        Ok((Json::Null, q + 4))
    } else {
        Err(ParseError::InvalidNull)
    }
}

/// The entries after setting `k` to `v`: the entry with key `k` takes the
/// new value in place, or a new entry comes last.
pub open spec fn insert_entry(es: Seq<(Seq<char>, Json)>, k: Seq<char>, v: Json) -> Seq<(Seq<char>, Json)> {
    if exists|i: int| 0 <= i < es.len() && es[i].0 == k {
        let i = choose|i: int| 0 <= i < es.len() && es[i].0 == k;
        es.update(i, (k, v))
    } else {
        es.push((k, v))
    }
}

/// A value from `p`, after any whitespace: the value and how many characters
/// it took from `p`, whitespace included.
pub open spec fn parse_value(s: Seq<char>, p: int) -> Result<(Json, nat), ParseError>
    decreases s.len() - p, 0nat,
{
    let q = p + ws_len(s, p);
    if q >= s.len() || p < 0 {
        Err(ParseError::UnexpectedEndOfInput)
    } else {
        let c = s[q];
        let r = if c == '"' || c == '\'' {
            match parse_text(s, q) {
                Ok((t, e)) => Ok((Json::Text(t), e)),
                Err(err) => Err(err),
            }
        } else if c == '[' {
            parse_list(s, q + 1)
        } else if c == '{' {
            parse_object(s, q + 1)
        } else if is_digit(c) || c == '-' {
            parse_number(s, q)
        } else if starts_boolean(c) {
            parse_boolean(s, q)
        } else if c == 'n' {
            parse_null(s, q)
        } else {
            Err(ParseError::UnexpectedCharacter)
        };
        match r {
            Ok((v, e)) => Ok((v, ws_len(s, p) + (e - q) as nat)),
            Err(err) => Err(err),
        }
    }
}

/// A list whose `[` stands just before `p`: the list and the position after
/// its `]`.
pub open spec fn parse_list(s: Seq<char>, p: int) -> Result<(Json, int), ParseError>
    decreases s.len() - p, 2nat,
{
    let q = p + ws_len(s, p);
    if q >= s.len() || p < 0 {
        Err(ParseError::UnexpectedEndOfInput)
    } else if s[q] == ']' {
        Ok((Json::List(Seq::empty()), q + 1))
    } else {
        list_items(s, p, Seq::empty())
    }
}

/// The rest of a list after its elements `acc`, from `p`, just after `[` or
/// `,`: the list and the position after its `]`.
pub open spec fn list_items(s: Seq<char>, p: int, acc: Seq<Json>) -> Result<(Json, int), ParseError>
    decreases s.len() - p, 1nat,
{
    if p < 0 || p > s.len() {
        Err(ParseError::UnexpectedEndOfInput)
    } else {
        match parse_value(s, p) {
            Err(err) => Err(err),
            Ok((v, n)) => {
                let e = p + n;
                let q = e + ws_len(s, e);
                let acc2 = acc.push(v);
                if q >= s.len() {
                    Err(ParseError::UnexpectedEndOfInput)
                } else if s[q] == ']' {
                    Ok((Json::List(acc2), q + 1))
                } else if s[q] == ',' {
                    list_items(s, q + 1, acc2)
                } else {
                    Err(ParseError::ExpectedSeparatorOrClose)
                }
            },
        }
    }
}

/// An object whose `{` stands just before `p`: the object and the position
/// after its `}`.
pub open spec fn parse_object(s: Seq<char>, p: int) -> Result<(Json, int), ParseError>
    decreases s.len() - p, 2nat,
{
    let q = p + ws_len(s, p);
    if q >= s.len() || p < 0 {
        Err(ParseError::UnexpectedEndOfInput)
    } else if s[q] == '}' {
        Ok((Json::Object(Seq::empty()), q + 1))
    } else {
        object_entries(s, p, Seq::empty())
    }
}

/// The rest of an object after its entries `acc`, from `p`, just after `{`
/// or `,`: the object and the position after its `}`.
pub open spec fn object_entries(s: Seq<char>, p: int, acc: Seq<(Seq<char>, Json)>) -> Result<
    (Json, int),
    ParseError,
>
    decreases s.len() - p, 1nat,
{
    let q = p + ws_len(s, p);
    if q >= s.len() || p < 0 {
        Err(ParseError::UnexpectedEndOfInput)
    } else if s[q] != '"' && s[q] != '\'' {
        Err(ParseError::ExpectedStringKey)
    } else {
        match parse_text(s, q) {
            Err(err) => Err(err),
            Ok((key, e1)) => {
                let c = e1 + ws_len(s, e1);
                if c >= s.len() {
                    Err(ParseError::UnexpectedEndOfInput)
                } else if s[c] != ':' {
                    Err(ParseError::ExpectedSeparatorOrClose)
                } else {
                    match parse_value(s, c + 1) {
                        Err(err) => Err(err),
                        Ok((v, n)) => {
                            let e2 = c + 1 + n;
                            let r = e2 + ws_len(s, e2);
                            let acc2 = insert_entry(acc, key, v);
                            if r >= s.len() {
                                Err(ParseError::UnexpectedEndOfInput)
                            } else if s[r] == '}' {
                                Ok((Json::Object(acc2), r + 1))
                            } else if s[r] == ',' {
                                object_entries(s, r + 1, acc2)
                            } else {
                                Err(ParseError::ExpectedSeparatorOrClose)
                            }
                        },
                    }
                }
            },
        }
    }
}

/// What parsing `text` gives: the first value in it, after any whitespace;
/// what follows that value is not read.
pub open spec fn parse(text: Seq<char>) -> Result<Json, ParseError> {
    match parse_value(text, 0) {
        Ok((v, _n)) => Ok(v),
        Err(err) => Err(err),
    }
}

/// Facts about a run: it stays within the text, every character in it
/// meets `f`, the one after it does not, and no run starts where it ends.
pub proof fn lemma_run_len(s: Seq<char>, p: int, f: spec_fn(char) -> bool)
    requires
        0 <= p <= s.len(),
    ensures
        p + run_len(s, p, f) <= s.len(),
        p + run_len(s, p, f) < s.len() ==> !f(s[p + run_len(s, p, f)]),
        forall|i: int| p <= i < p + run_len(s, p, f) ==> f(#[trigger] s[i]),
        run_len(s, p + run_len(s, p, f), f) == 0,
    decreases s.len() - p,
{
    if p < s.len() && f(s[p]) {
        lemma_run_len(s, p + 1, f);
    }
    let e = p + run_len(s, p, f);
    assert(run_len(s, e, f) == 0);
}

/// Whitespace before a value may be skipped first: the parse is the same,
/// with the skipped characters added to its length.
pub proof fn lemma_parse_value_ws(s: Seq<char>, p: int)
    requires
        0 <= p <= s.len(),
    ensures
        parse_value(s, p) == match parse_value(s, p + ws_len(s, p)) {
            Ok((v, n)) => Ok((v, n + ws_len(s, p))),
            Err(err) => Err(err),
        },
{
    lemma_run_len(s, p, white_space());
}

/// A run of `n` digits is below `10^n`.
pub proof fn lemma_digits_upper(ds: Seq<char>)
    requires
        forall|i: int| 0 <= i < ds.len() ==> is_digit(#[trigger] ds[i]),
    ensures
        digits_value(ds) < pow10(ds.len()),
    decreases ds.len(),
{
    if ds.len() > 0 {
        lemma_digits_upper(ds.drop_last());
        assert(is_digit(ds[ds.len() - 1]));
    }
}

/// A run of `n` digits that does not start with `0` is at least `10^(n-1)`.
pub proof fn lemma_digits_lower(ds: Seq<char>)
    requires
        ds.len() > 0,
        ds[0] != '0',
        forall|i: int| 0 <= i < ds.len() ==> is_digit(#[trigger] ds[i]),
    ensures
        digits_value(ds) >= pow10((ds.len() - 1) as nat),
    decreases ds.len(),
{
    assert(is_digit(ds[0]));
    if ds.len() > 1 {
        lemma_digits_lower(ds.drop_last());
    } else {
        assert(ds.drop_last().len() == 0);
    }
}

pub proof fn lemma_pow10_mono(a: nat, b: nat)
    requires
        a <= b,
    ensures
        pow10(a) <= pow10(b),
    decreases b,
{
    if a < b {
        lemma_pow10_mono(a, (b - 1) as nat);
    }
}

/// Setting an entry keeps the keys distinct, and every value in the result
/// is the new one or a value that was there.
pub proof fn lemma_insert_entry(es: Seq<(Seq<char>, Json)>, k: Seq<char>, v: Json)
    requires
        keys_unique(es),
    ensures
        keys_unique(insert_entry(es, k, v)),
        forall|i: int|
            0 <= i < insert_entry(es, k, v).len() ==> #[trigger] insert_entry(es, k, v)[i].1 == v
                || exists|j: int| 0 <= j < es.len() && es[j].1 == insert_entry(es, k, v)[i].1,
{
    let r = insert_entry(es, k, v);
    assert forall|i: int| 0 <= i < r.len() implies #[trigger] r[i].1 == v || exists|j: int|
        0 <= j < es.len() && es[j].1 == r[i].1 by {
        if r[i].1 != v {
            assert(es[i].1 == r[i].1);
        }
    }
}

} // verus!
