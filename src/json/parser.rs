use vstd::prelude::*;
use crate::json::grammar::{
    ParseError, count_dots, false_word, insert_entry, is_digit, is_number_char, is_white_space, digits_value, float_limit, in_float_range,
    lemma_digits_lower, lemma_digits_upper, lemma_pow10_mono, whole_digits,
    keyword_at, lemma_insert_entry, lemma_parse_value_ws, lemma_run_len, list_items, null_word, number_chars,
    object_entries, other_than, parse, parse_boolean, parse_list, parse_null, parse_number,
    parse_object, parse_text, parse_value, run_len, same_letter, starts_boolean, trimmed_len,
    true_word, valid_decimal, white_space, ws_len, zero_digit, canonical_decimal,
};
use crate::json::value::{
    Json, JsonValue, keys_unique, lemma_view_entries, lemma_view_items, push_char, view_entries,
    view_items, well_formed,
};

verus! {

/// Whether `r` is the outcome that `expected` describes for a sub-parser
/// that stopped at `end`.
pub open spec fn outcome(r: Result<JsonValue, ParseError>, expected: Result<(Json, int), ParseError>, end: int) -> bool {
    match expected {
        Ok((v, e)) => r is Ok && r->Ok_0@ == v && end == e,
        Err(err) => r == Err::<JsonValue, ParseError>(err),
    }
}

/// The model of a parse's outcome.
pub open spec fn result_view(r: Result<JsonValue, ParseError>) -> Result<Json, ParseError> {
    match r {
        Ok(v) => Ok(v@),
        Err(err) => Err(err),
    }
}

fn is_white_space_char(c: char) -> (r: bool)
    ensures
        r == is_white_space(c),
{
    let u = c as u32;
    (0x9 <= u && u <= 0xd) || u == 0x20 || u == 0x85 || u == 0xa0 || u == 0x1680 || (0x2000 <= u
        && u <= 0x200a) || u == 0x2028 || u == 0x2029 || u == 0x202f || u == 0x205f || u == 0x3000
}

fn is_digit_char(c: char) -> (r: bool)
    ensures
        r == is_digit(c),
{
    '0' <= c && c <= '9'
}

fn same_letter_char(c: char, l: char) -> (r: bool)
    requires
        'a' <= l && l <= 'z',
    ensures
        r == same_letter(c, l),
{
    c == l || c as u32 == l as u32 - 32
}

/// Appends the characters of `t` from `from` up to `to`.
fn push_range(out: &mut String, t: &Vec<char>, from: usize, to: usize)
    requires
        from <= to <= t.len(),
    ensures
        final(out)@ == old(out)@ + t@.subrange(from as int, to as int),
{
    let ghost start = out@;
    let mut i: usize = from;
    while i < to
        invariant
            from <= i <= to,
            to <= t.len(),
            out@ == start + t@.subrange(from as int, i as int),
        decreases to - i,
    {
        push_char(out, t[i]);
        i = i + 1;
        assert(out@ =~= start + t@.subrange(from as int, i as int));
    }
}

/// Whether a run of digits and dots reads as a decimal number.
fn is_valid_decimal(t: &Vec<char>) -> (r: bool)
    ensures
        r == valid_decimal(t@),
{
    let mut dots: usize = 0;
    let mut i: usize = 0;
    while i < t.len()
        invariant
            i <= t.len(),
            dots <= i,
            dots == count_dots(t@.take(i as int)),
        decreases t.len() - i,
    {
        assert(t@.take(i + 1).drop_last() =~= t@.take(i as int));
        if t[i] == '.' {
            dots = dots + 1;
        }
        i = i + 1;
    }
    assert(t@.take(i as int) =~= t@);
    dots <= 1 && dots < t.len()
}

/// Where the whole part of a number's text ends (its dot, or the end) and
/// where its digits start once leading zeros are left out.
fn whole_bounds(t: &Vec<char>) -> (r: (usize, usize))
    ensures
        r.0 == run_len(t@, 0, other_than('.')),
        r.1 == run_len(t@.subrange(0, r.0 as int), 0, zero_digit()),
        r.1 <= r.0 <= t.len(),
{
    let ghost tt = t@;
    let mut d: usize = 0;
    while d < t.len() && t[d] != '.'
        invariant
            d <= t.len(),
            tt == t@,
            run_len(tt, 0, other_than('.')) == d + run_len(tt, d as int, other_than('.')),
        decreases t.len() - d,
    {
        d = d + 1;
    }
    assert(run_len(tt, 0, other_than('.')) == d);
    let ghost whole = tt.subrange(0, d as int);
    let mut z: usize = 0;
    while z < d && t[z] == '0'
        invariant
            z <= d <= t.len(),
            tt == t@,
            whole == tt.subrange(0, d as int),
            run_len(whole, 0, zero_digit()) == z + run_len(whole, z as int, zero_digit()),
        decreases d - z,
    {
        assert(whole[z as int] == t@[z as int]);
        z = z + 1;
    }
    assert(z < d ==> whole[z as int] == t@[z as int]);
    assert(run_len(whole, 0, zero_digit()) == z);
    (d, z)
}

/// Whether a number's text, of digits and dots, reads as a finite 64-bit
/// float: its whole part, compared digit by digit, is below `float_limit`.
fn below_float_limit(t: &Vec<char>) -> (r: bool)
    requires
        forall|i: int| 0 <= i < t.len() ==> is_number_char(#[trigger] t@[i]),
    ensures
        r == in_float_range(t@),
{
    let (d, z) = whole_bounds(t);
    let ghost a = t@.subrange(z as int, d as int);
    let ghost lim = float_limit();
    let limit: &str = "179769313486231580793728971405303415079934132710037826936173778980444968292764750946649017977587207096330286416692887910946555547851940402630657488671505820681908902000708383676273854845817711531764475730270069855571366959622842914819860834936475292719074168444365510704342711559699508093042880177904174497792";
    proof {
        reveal_strlit("179769313486231580793728971405303415079934132710037826936173778980444968292764750946649017977587207096330286416692887910946555547851940402630657488671505820681908902000708383676273854845817711531764475730270069855571366959622842914819860834936475292719074168444365510704342711559699508093042880177904174497792");
        lemma_run_len(t@, 0, other_than('.'));
        lemma_run_len(t@.subrange(0, d as int), 0, zero_digit());
        assert(a =~= whole_digits(t@));
        assert forall|i: int| 0 <= i < a.len() implies is_digit(#[trigger] a[i]) by {
            assert(a[i] == t@[z + i]);
            assert(is_number_char(t@[z + i]));
        }
        assert forall|i: int| 0 <= i < lim.len() implies is_digit(#[trigger] lim[i]) by {}
        lemma_digits_upper(a);
        lemma_digits_upper(lim);
        lemma_digits_lower(lim);
        if a.len() > 0 {
            assert(a[0] == t@.subrange(0, d as int)[z as int]);
            lemma_digits_lower(a);
        }
    }
    let n = d - z;
    if n < 309 {
        proof {
            lemma_pow10_mono(a.len(), 308);
        }
        return true;
    }
    if n > 309 {
        proof {
            lemma_pow10_mono(309, (a.len() - 1) as nat);
        }
        return false;
    }
    let mut ord: i8 = 0;
    let mut i: usize = 0;
    while i < 309
        invariant
            i <= 309,
            n == 309,
            d == z + n,
            d <= t.len(),
            a == t@.subrange(z as int, d as int),
            lim == limit@,
            lim.len() == 309,
            forall|k: int| 0 <= k < a.len() ==> is_digit(#[trigger] a[k]),
            forall|k: int| 0 <= k < lim.len() ==> is_digit(#[trigger] lim[k]),
            (ord < 0) == (digits_value(a.take(i as int)) < digits_value(lim.take(i as int))),
            (ord == 0) == (digits_value(a.take(i as int)) == digits_value(lim.take(i as int))),
            -1 <= ord <= 1,
        decreases 309 - i,
    {
        let ca = t[z + i];
        let cl = limit.get_char(i);
        proof {
            assert(a.take(i + 1).drop_last() =~= a.take(i as int));
            assert(lim.take(i + 1).drop_last() =~= lim.take(i as int));
            assert(ca == a[i as int]);
            assert(is_digit(a[i as int]));
            assert(is_digit(lim[i as int]));
        }
        if ord == 0 {
            if ca < cl {
                ord = -1;
            } else if ca > cl {
                ord = 1;
            }
        }
        i = i + 1;
    }
    assert(a.take(309) =~= a);
    assert(lim.take(309) =~= lim);
    ord < 0
}

/// The canonical text of a decimal number written with digits and at most
/// one dot.
fn canonical_text(t: &Vec<char>) -> (r: String)
    ensures
        r@ == canonical_decimal(t@),
{
    let ghost tt = t@;
    let (d, z) = whole_bounds(t);
    let ghost whole = tt.subrange(0, d as int);
    let mut out = String::new();
    if z == d {
        push_char(&mut out, '0');
        assert(out@ =~= seq!['0']);
    } else {
        push_range(&mut out, t, z, d);
        assert(out@ =~= whole.subrange(z as int, whole.len() as int));
    }
    let ghost whole_text = out@;
    if d < t.len() {
        let ghost frac = tt.subrange(d + 1, tt.len() as int);
        let mut e: usize = t.len();
        while e > d + 1 && t[e - 1] == '0'
            invariant
                d + 1 <= e <= t.len(),
                tt == t@,
                frac == tt.subrange(d + 1, tt.len() as int),
                trimmed_len(tt.subrange(d + 1, e as int)) == trimmed_len(frac),
            decreases e,
        {
            assert(tt.subrange(d + 1, e - 1) =~= tt.subrange(d + 1, e as int).drop_last());
            e = e - 1;
        }
        assert(trimmed_len(tt.subrange(d + 1, e as int)) == e - d - 1);
        assert(frac.subrange(0, trimmed_len(frac) as int) =~= tt.subrange(d + 1, e as int));
        if e > d + 1 {
            push_char(&mut out, '.');
            push_range(&mut out, t, d + 1, e);
            assert(out@ =~= whole_text + seq!['.'] + tt.subrange(d + 1, e as int));
        }
    } else {
        assert(Seq::<char>::empty().subrange(0, trimmed_len(Seq::<char>::empty()) as int) =~= Seq::<char>::empty());
    }
    out
}

fn true_chars() -> (r: Vec<char>)
    ensures
        r@ == true_word(),
{
    let mut v: Vec<char> = Vec::new();
    v.push('t');
    v.push('r');
    v.push('u');
    v.push('e');
    assert(v@ =~= true_word());
    v
}

fn false_chars() -> (r: Vec<char>)
    ensures
        r@ == false_word(),
{
    let mut v: Vec<char> = Vec::new();
    v.push('f');
    v.push('a');
    v.push('l');
    v.push('s');
    v.push('e');
    assert(v@ =~= false_word());
    v
}

fn null_chars() -> (r: Vec<char>)
    ensures
        r@ == null_word(),
{
    let mut v: Vec<char> = Vec::new();
    v.push('n');
    v.push('u');
    v.push('l');
    v.push('l');
    assert(v@ =~= null_word());
    v
}

/// Sets `key` to `value` among the entries of an object: the entry with
/// that key takes the new value in place, or a new entry comes last.
pub fn object_insert(entries: &mut Vec<(String, JsonValue)>, key: String, value: JsonValue)
    requires
        keys_unique(view_entries(old(entries)@)),
    ensures
        view_entries(final(entries)@) == insert_entry(view_entries(old(entries)@), key@, value@),
        keys_unique(view_entries(final(entries)@)),
{
    let ghost es = view_entries(entries@);
    let ghost k = key@;
    let ghost v = value@;
    proof {
        lemma_view_entries(entries@);
    }
    let mut i: usize = 0;
    while i < entries.len()
        invariant
            i <= entries.len(),
            es == view_entries(entries@),
            es.len() == entries.len(),
            forall|j: int| 0 <= j < entries.len() ==> #[trigger] es[j] == (entries@[j].0@, entries@[j].1@),
            forall|j: int| 0 <= j < i ==> es[j].0 != k,
            k == key@,
            v == value@,
            es == view_entries(old(entries)@),
            keys_unique(es),
        decreases entries.len() - i,
    {
        if entries[i].0 == key {
            assert(es[i as int] == (entries@[i as int].0@, entries@[i as int].1@));
            assert(es[i as int].0 == k);
            entries.set(i, (key, value));
            proof {
                lemma_view_entries(entries@);
                assert(0 <= i < es.len() && es[i as int].0 == k);
                let c = choose|j: int| 0 <= j < es.len() && es[j].0 == k;
                assert(c == i as int);
                assert(view_entries(entries@) =~= es.update(i as int, (k, v)));
                assert(insert_entry(es, k, v) == es.update(i as int, (k, v)));
            }
            return;
        }
        i = i + 1;
    }
    entries.push((key, value));
    proof {
        lemma_view_entries(entries@);
        assert(view_entries(entries@) =~= es.push((k, v)));
    }
}

/// A reader of one value from a text, left to right.
pub struct JsonParser {
    position: usize,
    source: Vec<char>,
}

impl JsonParser {
    /// The text being read.
    pub closed spec fn text(&self) -> Seq<char> {
        self.source@
    }

    /// The position of the next character to read.
    pub closed spec fn pos(&self) -> int {
        self.position as int
    }

    /// The parser's invariant; `lemma_wf` states what it means.
    pub closed spec fn wf(&self) -> bool {
        self.position <= self.source.len()
    }

    /// The invariant holds exactly when the position lies within the text
    /// or just past its end.
    pub proof fn lemma_wf(&self)
        ensures
            self.wf() <==> 0 <= self.pos() <= self.text().len(),
    {
    }

    /// A parser over the empty text, at its start.
    pub fn new() -> (r: Self)
        ensures
            r.wf(),
            r.text() == Seq::<char>::empty(),
            r.pos() == 0,
    {
        JsonParser { position: 0, source: Vec::new() }
    }

    /// Reads the first value of `source`: whitespace may stand around it, and
    /// what follows it is not read. Fails with the first fault met. Each
    /// level of nesting takes one level of recursion, so the stack bounds the
    /// depth of input that can be read.
    pub fn parse_json(&mut self, source: String) -> (r: Result<JsonValue, ParseError>)
        ensures
            final(self).wf(),
            final(self).text() == source@,
            result_view(r) == parse(source@),
            r is Ok ==> well_formed(r->Ok_0@),
    {
        let mut chars: Vec<char> = Vec::new();
        for c in it: source.as_str().chars()
            invariant
                chars@ == it.seq().take(it.index() as int),
        {
            chars.push(c);
        }
        assert(chars@ =~= source@);
        self.position = 0;
        self.source = chars;
        self.parse_value()
    }

    /// The character `relative` places from the current one, if there is one.
    pub fn peek(&self, relative: i32) -> (r: Option<char>)
        requires
            self.wf(),
        ensures
            r == if 0 <= self.pos() + relative < self.text().len() {
                Some(self.text()[self.pos() + relative])
            } else {
                None::<char>
            },
    {
        if relative >= 0 {
            let k = relative as usize;
            if k < self.source.len() - self.position {
                Some(self.source[self.position + k])
            } else {
                None
            }
        } else {
            let back = (0i64 - relative as i64) as usize;
            if back <= self.position {
                Some(self.source[self.position - back])
            } else {
                None
            }
        }
    }

    /// Moves past the whitespace at the current position.
    pub fn skip_whitespace(&mut self)
        requires
            old(self).wf(),
        ensures
            final(self).wf(),
            final(self).text() == old(self).text(),
            final(self).pos() == old(self).pos() + ws_len(old(self).text(), old(self).pos()),
    {
        let ghost s = self.source@;
        let ghost start = self.position as int;
        while self.position < self.source.len() && is_white_space_char(self.source[self.position])
            invariant
                self.source@ == s,
                start <= self.position <= s.len(),
                start + ws_len(s, start) == self.position + ws_len(s, self.position as int),
            decreases s.len() - self.position,
        {
            self.position = self.position + 1;
        }
    }

    /// Skips whitespace, then moves past `expected` where it stands next.
    pub fn consume(&mut self, expected: char) -> (r: bool)
        requires
            old(self).wf(),
        ensures
            final(self).wf(),
            final(self).text() == old(self).text(),
            ({
                let q = old(self).pos() + ws_len(old(self).text(), old(self).pos());
                &&& r == (q < old(self).text().len() && old(self).text()[q] == expected)
                &&& final(self).pos() == if r {
                    q + 1
                } else {
                    q
                }
            }),
    {
        self.skip_whitespace();
        if self.position < self.source.len() && self.source[self.position] == expected {
            self.position = self.position + 1;
            true
        } else {
            false
        }
    }

    /// Whether `c` opens a boolean: `t` or `f`, in either case.
    pub fn is_start_of_boolean(&self, c: char) -> (r: bool)
        ensures
            r == starts_boolean(c),
    {
        same_letter_char(c, 't') || same_letter_char(c, 'f')
    }
    /// Whether the characters from the current position spell `kw`,
    /// ignoring ASCII case.
    fn keyword_here(&self, kw: &Vec<char>) -> (r: bool)
        requires
            self.wf(),
            self.pos() + kw.len() <= self.text().len(),
            forall|i: int| 0 <= i < kw.len() ==> 'a' <= #[trigger] kw@[i] && kw@[i] <= 'z',
        ensures
            r == keyword_at(self.text(), self.pos(), kw@),
    {
        let mut i: usize = 0;
        while i < kw.len()
            invariant
                i <= kw.len(),
                self.position + kw.len() <= self.source.len(),
                forall|i: int| 0 <= i < kw.len() ==> 'a' <= #[trigger] kw@[i] && kw@[i] <= 'z',
                forall|j: int|
                    0 <= j < i ==> same_letter(#[trigger] self.source@[self.position + j], kw@[j]),
            decreases kw.len() - i,
        {
            if !same_letter_char(self.source[self.position + i], kw[i]) {
                assert(!same_letter(self.source@[self.position + i], kw@[i as int]));
                return false;
            }
            i = i + 1;
        }
        true
    }

    /// Reads one value after any whitespace, dispatching on its first
    /// character.
    fn parse_value(&mut self) -> (r: Result<JsonValue, ParseError>)
        requires
            old(self).wf(),
        ensures
            final(self).wf(),
            final(self).text() == old(self).text(),
            old(self).pos() <= final(self).pos(),
            match parse_value(old(self).text(), old(self).pos()) {
                Ok((v, n)) => r is Ok && r->Ok_0@ == v && final(self).pos() == old(self).pos() + n,
                Err(err) => r == Err::<JsonValue, ParseError>(err),
            },
            r is Ok ==> well_formed(r->Ok_0@),
        decreases self.source@.len() + 1 - self.position, 0nat,
    {
        let ghost s = self.source@;
        let ghost p = self.position as int;
        self.skip_whitespace();
        proof {
            lemma_run_len(s, p, white_space());
        }
        let current = match self.peek(0) {
            Some(c) => c,
            None => {
                return Err(ParseError::UnexpectedEndOfInput);
            },
        };
        if current == '"' || current == '\'' {
            match self.parse_string() {
                Ok(t) => Ok(JsonValue::String(t)),
                Err(err) => Err(err),
            }
        } else if current == '[' {
            self.parse_array()
        } else if current == '{' {
            self.parse_object()
        } else if is_digit_char(current) || current == '-' {
            self.parse_number()
        } else if self.is_start_of_boolean(current) {
            self.parse_boolean()
        } else if current == 'n' {
            self.parse_null()
        } else {
            Err(ParseError::UnexpectedCharacter)
        }
    }

    /// Reads a list whose `[` stands at the current position.
    fn parse_array(&mut self) -> (r: Result<JsonValue, ParseError>)
        requires
            old(self).wf(),
            old(self).pos() < old(self).text().len(),
            old(self).text()[old(self).pos()] == '[',
        ensures
            final(self).wf(),
            final(self).text() == old(self).text(),
            old(self).pos() <= final(self).pos(),
            outcome(r, parse_list(old(self).text(), old(self).pos() + 1), final(self).pos()),
            r is Ok ==> well_formed(r->Ok_0@),
        decreases self.source@.len() - self.position, 1nat,
    {
        let ghost s = self.source@;
        let ghost p1 = self.position + 1;
        let _ = self.consume('[');
        self.skip_whitespace();
        proof {
            lemma_run_len(s, p1, white_space());
        }
        match self.peek(0) {
            None => {
                return Err(ParseError::UnexpectedEndOfInput);
            },
            Some(c) => {
                if c == ']' {
                    self.position = self.position + 1;
                    return Ok(JsonValue::Array(Vec::new()));
                }
            },
        }
        let mut items: Vec<JsonValue> = Vec::new();
        let ghost mut p = p1;
        loop
            invariant
                self.wf(),
                self.source@ == s,
                s == old(self).source@,
                p1 == old(self).position + 1,
                p1 <= p <= s.len(),
                p1 <= self.position,
                self.position == p || self.position == p + ws_len(s, p),
                parse_list(s, p1) == list_items(s, p, view_items(items@)),
                forall|k: int| 0 <= k < items.len() ==> well_formed(#[trigger] items@[k]@),
            decreases s.len() - p,
        {
            self.skip_whitespace();
            proof {
                lemma_run_len(s, p, white_space());
                lemma_parse_value_ws(s, p);
            }
            let value = match self.parse_value() {
                Ok(v) => v,
                Err(err) => {
                    return Err(err);
                },
            };
            let ghost e = self.position as int;
            let ghost before = items@;
            items.push(value);
            assert(items@.drop_last() =~= before);
            self.skip_whitespace();
            proof {
                lemma_run_len(s, e, white_space());
            }
            match self.peek(0) {
                None => {
                    return Err(ParseError::UnexpectedEndOfInput);
                },
                Some(c) => {
                    if c == ']' {
                        self.position = self.position + 1;
                        proof {
                            lemma_view_items(items@);
                        }
                        return Ok(JsonValue::Array(items));
                    }
                },
            }
            if !self.consume(',') {
                return Err(ParseError::ExpectedSeparatorOrClose);
            }
            proof {
                p = self.position as int;
            }
        }
    }

    /// Reads an object whose `{` stands at the current position; a later
    /// entry replaces an earlier one with the same key.
    fn parse_object(&mut self) -> (r: Result<JsonValue, ParseError>)
        requires
            old(self).wf(),
            old(self).pos() < old(self).text().len(),
            old(self).text()[old(self).pos()] == '{',
        ensures
            final(self).wf(),
            final(self).text() == old(self).text(),
            old(self).pos() <= final(self).pos(),
            outcome(r, parse_object(old(self).text(), old(self).pos() + 1), final(self).pos()),
            r is Ok ==> well_formed(r->Ok_0@),
        decreases self.source@.len() - self.position, 1nat,
    {
        let ghost s = self.source@;
        let ghost p1 = self.position + 1;
        let _ = self.consume('{');
        self.skip_whitespace();
        proof {
            lemma_run_len(s, p1, white_space());
        }
        match self.peek(0) {
            None => {
                return Err(ParseError::UnexpectedEndOfInput);
            },
            Some(c) => {
                if c == '}' {
                    self.position = self.position + 1;
                    return Ok(JsonValue::Object(Vec::new()));
                }
            },
        }
        let mut entries: Vec<(String, JsonValue)> = Vec::new();
        let ghost mut p = p1;
        loop
            invariant
                self.wf(),
                self.source@ == s,
                s == old(self).source@,
                p1 == old(self).position + 1,
                p1 <= p <= s.len(),
                p1 <= self.position,
                self.position == p || self.position == p + ws_len(s, p),
                parse_object(s, p1) == object_entries(s, p, view_entries(entries@)),
                keys_unique(view_entries(entries@)),
                forall|k: int|
                    0 <= k < entries.len() ==> well_formed(#[trigger] view_entries(entries@)[k].1),
            decreases s.len() - p,
        {
            self.skip_whitespace();
            proof {
                lemma_run_len(s, p, white_space());
            }
            let key = match self.parse_string() {
                Ok(k) => k,
                Err(err) => {
                    return Err(err);
                },
            };
            if !self.consume(':') {
                if self.position < self.source.len() {
                    return Err(ParseError::ExpectedSeparatorOrClose);
                } else {
                    return Err(ParseError::UnexpectedEndOfInput);
                }
            }
            let value = match self.parse_value() {
                Ok(v) => v,
                Err(err) => {
                    return Err(err);
                },
            };
            let ghost e2 = self.position as int;
            let ghost before = view_entries(entries@);
            proof {
                lemma_view_entries(entries@);
                lemma_insert_entry(before, key@, value@);
            }
            object_insert(&mut entries, key, value);
            proof {
                lemma_view_entries(entries@);
                let after = view_entries(entries@);
                assert forall|k: int| 0 <= k < entries.len() implies well_formed(
                    #[trigger] view_entries(entries@)[k].1,
                ) by {
                    if after[k].1 != value@ {
                        let j = choose|j: int| 0 <= j < before.len() && before[j].1 == after[k].1;
                        assert(well_formed(before[j].1));
                    }
                }
            }
            self.skip_whitespace();
            proof {
                lemma_run_len(s, e2, white_space());
            }
            match self.peek(0) {
                None => {
                    return Err(ParseError::UnexpectedEndOfInput);
                },
                Some(c) => {
                    if c == '}' {
                        self.position = self.position + 1;
                        return Ok(JsonValue::Object(entries));
                    }
                },
            }
            if !self.consume(',') {
                return Err(ParseError::ExpectedSeparatorOrClose);
            }
            proof {
                p = self.position as int;
            }
        }
    }

    /// Reads a quoted text: skips whitespace, then reads from a quote to the
    /// next occurrence of the same quote, taking every character between as
    /// it stands.
    fn parse_string(&mut self) -> (r: Result<String, ParseError>)
        requires
            old(self).wf(),
        ensures
            final(self).wf(),
            final(self).text() == old(self).text(),
            old(self).pos() <= final(self).pos(),
            ({
                let s = old(self).text();
                let q = old(self).pos() + ws_len(s, old(self).pos());
                if q >= s.len() {
                    r == Err::<String, ParseError>(ParseError::UnexpectedEndOfInput)
                } else if s[q] != '"' && s[q] != '\'' {
                    r == Err::<String, ParseError>(ParseError::ExpectedStringKey)
                } else {
                    match parse_text(s, q) {
                        Ok((t, e)) => r is Ok && r->Ok_0@ == t && final(self).pos() == e,
                        Err(err) => r == Err::<String, ParseError>(err),
                    }
                }
            }),
    {
        self.skip_whitespace();
        let bracket_type = match self.peek(0) {
            Some(c) => c,
            None => {
                return Err(ParseError::UnexpectedEndOfInput);
            },
        };
        if bracket_type != '"' && bracket_type != '\'' {
            return Err(ParseError::ExpectedStringKey);
        }
        self.position = self.position + 1;
        let ghost s = self.source@;
        let ghost q1 = self.position as int;
        let mut buffer = String::new();
        while self.position < self.source.len() && self.source[self.position] != bracket_type
            invariant
                self.source@ == s,
                q1 <= self.position <= s.len(),
                buffer@ == s.subrange(q1, self.position as int),
                q1 + run_len(s, q1, other_than(bracket_type)) == self.position + run_len(
                    s,
                    self.position as int,
                    other_than(bracket_type),
                ),
            decreases s.len() - self.position,
        {
            push_char(&mut buffer, self.source[self.position]);
            self.position = self.position + 1;
            assert(buffer@ =~= s.subrange(q1, self.position as int));
        }
        if self.position >= self.source.len() {
            return Err(ParseError::UnexpectedEndOfInput);
        }
        self.position = self.position + 1;
        Ok(buffer)
    }

    /// Reads a number after any whitespace: the run of digits and dots.
    fn parse_number(&mut self) -> (r: Result<JsonValue, ParseError>)
        requires
            old(self).wf(),
        ensures
            final(self).wf(),
            final(self).text() == old(self).text(),
            old(self).pos() <= final(self).pos(),
            outcome(
                r,
                parse_number(old(self).text(), old(self).pos() + ws_len(old(self).text(), old(self).pos())),
                final(self).pos(),
            ),
    {
        self.skip_whitespace();
        let ghost s = self.source@;
        let start = self.position;
        let mut t: Vec<char> = Vec::new();
        while self.position < self.source.len() && (is_digit_char(self.source[self.position])
            || self.source[self.position] == '.')
            invariant
                self.source@ == s,
                start <= self.position <= s.len(),
                t@ == s.subrange(start as int, self.position as int),
                start + run_len(s, start as int, number_chars()) == self.position + run_len(
                    s,
                    self.position as int,
                    number_chars(),
                ),
            decreases s.len() - self.position,
        {
            t.push(self.source[self.position]);
            self.position = self.position + 1;
            assert(t@ =~= s.subrange(start as int, self.position as int));
        }
        proof {
            lemma_run_len(s, start as int, number_chars());
            assert forall|i: int| 0 <= i < t.len() implies is_number_char(#[trigger] t@[i]) by {
                assert(t@[i] == s[start + i]);
                assert(number_chars()(s[start + i]));
            }
        }
        if !is_valid_decimal(&t) || !below_float_limit(&t) {
            return Err(ParseError::InvalidNumber);
        }
        Ok(JsonValue::Number(canonical_text(&t)))
    }

    /// Reads `true` or `false` after any whitespace, in any case, as the
    /// first letter says.
    fn parse_boolean(&mut self) -> (r: Result<JsonValue, ParseError>)
        requires
            old(self).wf(),
            old(self).pos() + ws_len(old(self).text(), old(self).pos()) < old(self).text().len(),
        ensures
            final(self).wf(),
            final(self).text() == old(self).text(),
            old(self).pos() <= final(self).pos(),
            outcome(
                r,
                parse_boolean(
                    old(self).text(),
                    old(self).pos() + ws_len(old(self).text(), old(self).pos()),
                ),
                final(self).pos(),
            ),
    {
        self.skip_whitespace();
        let b = same_letter_char(self.source[self.position], 't');
        let kw = if b {
            true_chars()
        } else {
            false_chars()
        };
        if kw.len() > self.source.len() - self.position {
            return Err(ParseError::UnexpectedEndOfInput);
        }
        if !self.keyword_here(&kw) {
            return Err(ParseError::InvalidBoolean);
        }
        self.position = self.position + kw.len();
        Ok(JsonValue::Boolean(b))
    }

    /// Reads `null` after any whitespace, in any case.
    fn parse_null(&mut self) -> (r: Result<JsonValue, ParseError>)
        requires
            old(self).wf(),
            old(self).pos() + ws_len(old(self).text(), old(self).pos()) < old(self).text().len(),
        ensures
            final(self).wf(),
            final(self).text() == old(self).text(),
            old(self).pos() <= final(self).pos(),
            outcome(
                r,
                parse_null(
                    old(self).text(),
                    old(self).pos() + ws_len(old(self).text(), old(self).pos()),
                ),
                final(self).pos(),
            ),
    {
        self.skip_whitespace();
        let kw = null_chars();
        if kw.len() > self.source.len() - self.position {
            return Err(ParseError::UnexpectedEndOfInput);
        }
        if !self.keyword_here(&kw) {
            return Err(ParseError::InvalidNull);
        }
        self.position = self.position + 4;
        Ok(JsonValue::Null)
    }
}

} // verus!
