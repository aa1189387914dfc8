//! Row codec: turns one relational row into one line of JSON text.
//!
//! A row is an ordered sequence of column values typed as one of
//! {null, integer, real, text}. The encoded form is a single JSON array of
//! the row's values, newline-terminated. Blob values are an unsupported
//! input: they fail the whole row, never silently dropped or coerced.

use vstd::prelude::*;

verus! {

/// One column value of a row.
///
/// A real is carried as its already-rendered JSON number text (the decimal
/// or exponential rendering of the floating-point value, produced at the
/// read edge); the codec treats that text as opaque number characters.
pub enum Value {
    Null,
    Integer(i64),
    Real(String),
    Text(String),
    Blob,
}

/// The mathematical model of a column value.
pub enum ValModel {
    Null,
    Integer(int),
    Real(Seq<char>),
    Text(Seq<char>),
    Blob,
}

impl View for Value {
    type V = ValModel;

    open spec fn view(&self) -> ValModel {
        match self {
            Value::Null => ValModel::Null,
            Value::Integer(i) => ValModel::Integer(*i as int),
            Value::Real(s) => ValModel::Real(s@),
            Value::Text(s) => ValModel::Text(s@),
            Value::Blob => ValModel::Blob,
        }
    }
}

/// The model of a whole row.
pub open spec fn row_model(row: Seq<Value>) -> Seq<ValModel> {
    row.map_values(|v: Value| v@)
}

/// Error for a row that holds a value outside the supported input set.
#[derive(Debug, PartialEq, Eq, Structural)]
pub enum UnsupportedInput {
    Blob,
}

impl UnsupportedInput {
    /// A single-line human-readable description.
    pub fn message(&self) -> (r: &'static str)
        ensures
            r@ == "blobs not yet supported"@,
    {
        "blobs not yet supported"
    }
}

/// The decimal digit character for `d` in 0..=9.
pub open spec fn digit_char(d: int) -> char {
    if d == 0 { '0' }
    else if d == 1 { '1' }
    else if d == 2 { '2' }
    else if d == 3 { '3' }
    else if d == 4 { '4' }
    else if d == 5 { '5' }
    else if d == 6 { '6' }
    else if d == 7 { '7' }
    else if d == 8 { '8' }
    else { '9' }
}

/// The decimal rendering of a nonnegative integer, most significant digit
/// first, with no leading zeros (a single `'0'` for zero).
pub open spec fn dec_digits(n: nat) -> Seq<char>
    decreases n,
{
    if n < 10 {
        seq![digit_char(n as int)]
    } else {
        dec_digits(n / 10) + seq![digit_char((n % 10) as int)]
    }
}

/// The JSON rendering of an integer: an optional minus sign, then digits.
pub open spec fn int_dec(i: int) -> Seq<char> {
    if i < 0 {
        seq!['-'] + dec_digits((-i) as nat)
    } else {
        dec_digits(i as nat)
    }
}

fn digit_char_exec(d: u64) -> (c: char)
    requires
        d < 10,
    ensures
        c == digit_char(d as int),
{
    if d == 0 { '0' }
    else if d == 1 { '1' }
    else if d == 2 { '2' }
    else if d == 3 { '3' }
    else if d == 4 { '4' }
    else if d == 5 { '5' }
    else if d == 6 { '6' }
    else if d == 7 { '7' }
    else if d == 8 { '8' }
    else { '9' }
}

/// Appends the decimal rendering of `n` to `out`.
fn push_u64_dec(n: u64, out: &mut Vec<char>)
    ensures
        final(out)@ == old(out)@ + dec_digits(n as nat),
{
    let mut digits: Vec<char> = Vec::new();
    let mut m: u64 = n;
    loop
        invariant_except_break
            dec_digits(n as nat) == dec_digits(m as nat) + digits@,
        ensures
            dec_digits(n as nat) == digits@,
        decreases m,
    {
        let ghost digits_pre = digits@;
        let d = digit_char_exec(m % 10);
        digits.insert(0, d);
        assert(digits@ == seq![digit_char(m as int % 10)] + digits_pre);
        let next = m / 10;
        if next == 0 {
            assert(m < 10);
            assert(dec_digits(m as nat) == seq![digit_char(m as int)]);
            break;
        }
        assert(m >= 10);
        assert(dec_digits(m as nat) == dec_digits(m as nat / 10) + seq![
            digit_char(m as int % 10),
        ]);
        m = next;
    }
    out.append(&mut digits);
}

/// The lowercase hexadecimal digit character for `d` in 0..=15.
pub open spec fn hex_char(d: int) -> char {
    if d < 10 { digit_char(d) }
    else if d == 10 { 'a' }
    else if d == 11 { 'b' }
    else if d == 12 { 'c' }
    else if d == 13 { 'd' }
    else if d == 14 { 'e' }
    else { 'f' }
}

/// How one character is written inside a JSON string literal: quote and
/// backslash get a backslash escape, the common control characters get
/// their short escapes, the remaining control characters the `\u00XX`
/// form, and every other character stands for itself.
pub open spec fn escape_char(c: char) -> Seq<char> {
    if c == '"' { seq!['\\', '"'] }
    else if c == '\\' { seq!['\\', '\\'] }
    else if c == '\u{8}' { seq!['\\', 'b'] }
    else if c == '\t' { seq!['\\', 't'] }
    else if c == '\n' { seq!['\\', 'n'] }
    else if c == '\u{c}' { seq!['\\', 'f'] }
    else if c == '\r' { seq!['\\', 'r'] }
    else if (c as u32) < 0x20 {
        seq!['\\', 'u', '0', '0', hex_char(c as u32 as int / 16), hex_char(c as u32 as int % 16)]
    } else {
        seq![c]
    }
}

/// The body of the JSON string literal for `s` (without the quotes).
pub open spec fn escape(s: Seq<char>) -> Seq<char>
    decreases s.len(),
{
    if s.len() == 0 {
        Seq::empty()
    } else {
        escape_char(s[0]) + escape(s.drop_first())
    }
}

/// Escaping distributes over concatenation.
pub proof fn lemma_escape_concat(a: Seq<char>, b: Seq<char>)
    ensures
        escape(a + b) == escape(a) + escape(b),
    decreases a.len(),
{
    if a.len() == 0 {
        assert(a + b =~= b);
        assert(escape(a) + escape(b) =~= escape(b));
    } else {
        assert((a + b).drop_first() =~= a.drop_first() + b);
        lemma_escape_concat(a.drop_first(), b);
        assert(escape(a + b) =~= escape(a) + escape(b));
    }
}

/// Appends the JSON rendering of the integer `i` to `out`.
fn push_i64_dec(i: i64, out: &mut Vec<char>)
    ensures
        final(out)@ == old(out)@ + int_dec(i as int),
{
    if i < 0 {
        out.push('-');
        let m: u64 = if i == i64::MIN {
            9223372036854775808u64
        } else {
            (-i) as u64
        };
        assert(m as nat == (-(i as int)) as nat);
        push_u64_dec(m, out);
    } else {
        push_u64_dec(i as u64, out);
    }
}

fn hex_char_exec(d: u32) -> (c: char)
    requires
        d < 16,
    ensures
        c == hex_char(d as int),
{
    if d == 0 { '0' }
    else if d == 1 { '1' }
    else if d == 2 { '2' }
    else if d == 3 { '3' }
    else if d == 4 { '4' }
    else if d == 5 { '5' }
    else if d == 6 { '6' }
    else if d == 7 { '7' }
    else if d == 8 { '8' }
    else if d == 9 { '9' }
    else if d == 10 { 'a' }
    else if d == 11 { 'b' }
    else if d == 12 { 'c' }
    else if d == 13 { 'd' }
    else if d == 14 { 'e' }
    else { 'f' }
}

/// Appends the characters of `s` to `out`, unchanged.
fn push_str_chars(s: &str, out: &mut Vec<char>)
    ensures
        final(out)@ == old(out)@ + s@,
{
    let n = s.unicode_len();
    let mut i: usize = 0;
    while i < n
        invariant
            i <= n,
            n == s@.len(),
            out@ == old(out)@ + s@.take(i as int),
        decreases n - i,
    {
        let c = s.get_char(i);
        out.push(c);
        assert(s@.take(i + 1) =~= s@.take(i as int).push(s@[i as int]));
        i = i + 1;
    }
    assert(s@.take(n as int) =~= s@);
}

/// Appends the escaped body of the JSON string literal for `s` to `out`.
fn push_escaped(s: &str, out: &mut Vec<char>)
    ensures
        final(out)@ == old(out)@ + escape(s@),
{
    let n = s.unicode_len();
    let mut i: usize = 0;
    while i < n
        invariant
            i <= n,
            n == s@.len(),
            out@ == old(out)@ + escape(s@.take(i as int)),
        decreases n - i,
    {
        let c = s.get_char(i);
        if c == '"' {
            out.push('\\');
            out.push('"');
        } else if c == '\\' {
            out.push('\\');
            out.push('\\');
        } else if c == '\u{8}' {
            out.push('\\');
            out.push('b');
        } else if c == '\t' {
            out.push('\\');
            out.push('t');
        } else if c == '\n' {
            out.push('\\');
            out.push('n');
        } else if c == '\u{c}' {
            out.push('\\');
            out.push('f');
        } else if c == '\r' {
            out.push('\\');
            out.push('r');
        } else {
            let u = c as u32;
            if u < 0x20 {
                out.push('\\');
                out.push('u');
                out.push('0');
                out.push('0');
                out.push(hex_char_exec(u / 16));
                out.push(hex_char_exec(u % 16));
            } else {
                out.push(c);
            }
        }
        proof {
            assert(out@ =~= old(out)@ + escape(s@.take(i as int)) + escape_char(s@[i as int]));
            assert(s@.take(i + 1) =~= s@.take(i as int) + seq![s@[i as int]]);
            lemma_escape_concat(s@.take(i as int), seq![s@[i as int]]);
            assert(seq![s@[i as int]].drop_first() =~= Seq::<char>::empty());
            assert(escape(seq![s@[i as int]]) =~= escape_char(s@[i as int]) + escape(
                Seq::<char>::empty(),
            ));
            assert(escape(seq![s@[i as int]]) =~= escape_char(s@[i as int]));
            assert(out@ =~= old(out)@ + escape(s@.take(i + 1)));
        }
        i = i + 1;
    }
    assert(s@.take(n as int) =~= s@);
}

/// The JSON text of one value. A blob has no JSON form; rows holding one
/// are rejected before any text is produced.
pub open spec fn json_of(v: ValModel) -> Seq<char> {
    match v {
        ValModel::Null => seq!['n', 'u', 'l', 'l'],
        ValModel::Integer(i) => int_dec(i),
        ValModel::Real(s) => s,
        ValModel::Text(s) => seq!['"'] + escape(s) + seq!['"'],
        ValModel::Blob => Seq::empty(),
    }
}

/// The comma-separated JSON texts of a sequence of values.
pub open spec fn json_vals(vs: Seq<ValModel>) -> Seq<char>
    decreases vs.len(),
{
    if vs.len() == 0 {
        Seq::empty()
    } else if vs.len() == 1 {
        json_of(vs[0])
    } else {
        json_of(vs[0]) + seq![','] + json_vals(vs.drop_first())
    }
}

/// The whole encoded line for a row: a JSON array, newline-terminated.
pub open spec fn json_row(vs: Seq<ValModel>) -> Seq<char> {
    seq!['['] + json_vals(vs) + seq![']', '\n']
}

/// A row can be encoded exactly when it holds no blob value.
pub open spec fn row_encodable(vs: Seq<ValModel>) -> bool {
    forall|i: int| 0 <= i < vs.len() ==> !(#[trigger] vs[i] is Blob)
}

proof fn lemma_json_vals_push(vs: Seq<ValModel>, v: ValModel)
    ensures
        json_vals(vs.push(v)) == if vs.len() == 0 {
            json_of(v)
        } else {
            json_vals(vs) + seq![','] + json_vals(seq![v])
        },
    decreases vs.len(),
{
    if vs.len() == 0 {
        assert(vs.push(v) =~= seq![v]);
        assert(json_vals(seq![v]) == json_of(v));
    } else {
        assert(vs.push(v).drop_first() =~= vs.drop_first().push(v));
        lemma_json_vals_push(vs.drop_first(), v);
        if vs.len() == 1 {
            assert(json_vals(vs) == json_of(vs[0]));
            assert(json_vals(vs.push(v)) =~= json_of(vs[0]) + seq![','] + json_vals(seq![v]));
        } else {
            assert(json_vals(vs.push(v)) =~= json_vals(vs) + seq![','] + json_vals(seq![v]));
        }
    }
}

/// Appends the JSON text of one value to `out`; rejects a blob and then
/// leaves `out` unchanged.
fn encode_value(v: &Value, out: &mut Vec<char>) -> (r: Result<(), UnsupportedInput>)
    ensures
        match r {
            Ok(()) => !(v@ is Blob) && final(out)@ == old(out)@ + json_of(v@),
            Err(e) => v@ is Blob && e == UnsupportedInput::Blob && final(out)@ == old(out)@,
        },
{
    match v {
        Value::Null => {
            out.push('n');
            out.push('u');
            out.push('l');
            out.push('l');
            assert(out@ =~= old(out)@ + seq!['n', 'u', 'l', 'l']);
            Ok(())
        },
        Value::Integer(i) => {
            push_i64_dec(*i, out);
            Ok(())
        },
        Value::Real(s) => {
            push_str_chars(s.as_str(), out);
            Ok(())
        },
        Value::Text(s) => {
            out.push('"');
            push_escaped(s.as_str(), out);
            out.push('"');
            assert(out@ =~= old(out)@ + (seq!['"'] + escape(s@) + seq!['"']));
            Ok(())
        },
        Value::Blob => Err(UnsupportedInput::Blob),
    }
}

/// Encodes one row as a single newline-terminated JSON array line.
///
/// Succeeds exactly on rows without blob values; a row holding a blob
/// fails as a whole, and no partial text is handed out.
pub fn encode_row(row: &Vec<Value>) -> (r: Result<String, UnsupportedInput>)
    ensures
        match r {
            Ok(line) => row_encodable(row_model(row@)) && line@ == json_row(row_model(row@)),
            Err(e) => !row_encodable(row_model(row@)) && e == UnsupportedInput::Blob,
        },
{
    let ghost vs = row_model(row@);
    let mut out: Vec<char> = Vec::new();
    out.push('[');
    let mut i: usize = 0;
    while i < row.len()
        invariant
            i <= row.len(),
            vs == row_model(row@),
            vs.len() == row@.len(),
            out@ == seq!['['] + json_vals(vs.take(i as int)),
            row_encodable(vs.take(i as int)),
        decreases row@.len() - i,
    {
        if i > 0 {
            out.push(',');
        }
        let ghost out_pre = out@;
        match encode_value(&row[i], &mut out) {
            Ok(()) => {},
            Err(e) => {
                assert(vs[i as int] is Blob);
                return Err(e);
            },
        }
        proof {
            assert(vs[i as int] == row@[i as int]@);
            lemma_json_vals_push(vs.take(i as int), vs[i as int]);
            assert(vs.take(i + 1) =~= vs.take(i as int).push(vs[i as int]));
            assert(json_vals(seq![vs[i as int]]) == json_of(vs[i as int]));
            if i == 0 {
                assert(out@ =~= seq!['['] + json_vals(vs.take(i + 1)));
            } else {
                assert(out@ =~= seq!['['] + json_vals(vs.take(i as int)) + seq![','] + json_of(
                    vs[i as int],
                ));
                assert(out@ =~= seq!['['] + json_vals(vs.take(i + 1)));
            }
            assert(forall|j: int|
                0 <= j < i + 1 ==> !(#[trigger] vs.take(i + 1)[j] is Blob));
        }
        i = i + 1;
    }
    assert(vs.take(row@.len() as int) =~= vs);
    out.push(']');
    out.push('\n');
    assert(out@ =~= json_row(vs));
    Ok(chars_to_string(&out))
}

// ---------------------------------------------------------------------
// Decoding (specification level): reading one encoded line back. Used to
// state and prove that encoding loses nothing.
// ---------------------------------------------------------------------

/// Whether `c` is a decimal digit.
pub open spec fn is_digit(c: char) -> bool {
    '0' as u32 <= c as u32 && c as u32 <= '9' as u32
}

/// The numeric value of a decimal digit character.
pub open spec fn digval(c: char) -> int {
    c as int - '0' as int
}

/// Whether `c` is a lowercase hexadecimal digit.
pub open spec fn is_hex_digit(c: char) -> bool {
    is_digit(c) || ('a' as u32 <= c as u32 && c as u32 <= 'f' as u32)
}

/// The numeric value of a lowercase hexadecimal digit character.
pub open spec fn hexval(c: char) -> int {
    if is_digit(c) {
        digval(c)
    } else {
        c as int - 'a' as int + 10
    }
}

/// Whether `c` may appear in a JSON number token.
pub open spec fn is_num_char(c: char) -> bool {
    is_digit(c) || c == '-' || c == '+' || c == '.' || c == 'e' || c == 'E'
}

/// Whether every character of `t` is a decimal digit.
pub open spec fn all_digits(t: Seq<char>) -> bool {
    forall|i: int| 0 <= i < t.len() ==> is_digit(#[trigger] t[i])
}

/// Whether `t` is the token of a JSON integer: an optional minus sign
/// followed by at least one digit and nothing else.
pub open spec fn is_int_token(t: Seq<char>) -> bool {
    t.len() > 0 && if t[0] == '-' {
        t.len() >= 2 && all_digits(t.drop_first())
    } else {
        all_digits(t)
    }
}

/// The value of a sequence of decimal digits, most significant first.
pub open spec fn dec_val(t: Seq<char>) -> int
    decreases t.len(),
{
    if t.len() == 0 {
        0
    } else {
        dec_val(t.drop_last()) * 10 + digval(t.last())
    }
}

/// The integer value of an integer token.
pub open spec fn parse_int(t: Seq<char>) -> int {
    if t.len() > 0 && t[0] == '-' {
        -dec_val(t.drop_first())
    } else {
        dec_val(t)
    }
}

/// The character a short escape stands for.
pub open spec fn unescape_short(c: char) -> char {
    if c == '"' { '"' }
    else if c == '\\' { '\\' }
    else if c == 'b' { '\u{8}' }
    else if c == 't' { '\t' }
    else if c == 'n' { '\n' }
    else if c == 'f' { '\u{c}' }
    else { '\r' }
}

/// Whether `c` names a short escape.
pub open spec fn is_short_escape(c: char) -> bool {
    c == '"' || c == '\\' || c == 'b' || c == 't' || c == 'n' || c == 'f' || c == 'r'
}

/// Reads a JSON string literal body up to and including its closing
/// quote: yields the unescaped body and what follows the quote.
pub open spec fn unescape(s: Seq<char>) -> Option<(Seq<char>, Seq<char>)>
    decreases s.len(),
{
    if s.len() == 0 {
        None
    } else if s[0] == '"' {
        Some((Seq::empty(), s.drop_first()))
    } else if s[0] == '\\' {
        if s.len() < 2 {
            None
        } else if is_short_escape(s[1]) {
            match unescape(s.skip(2)) {
                Some(br) => Some((seq![unescape_short(s[1])] + br.0, br.1)),
                None => None,
            }
        } else if s[1] == 'u' {
            if s.len() < 6 {
                None
            } else if s[2] == '0' && s[3] == '0' && is_hex_digit(s[4]) && is_hex_digit(s[5]) {
                match unescape(s.skip(6)) {
                    Some(br) => Some(
                        (seq![((hexval(s[4]) * 16 + hexval(s[5])) as u32) as char] + br.0, br.1),
                    ),
                    None => None,
                }
            } else {
                None
            }
        } else {
            None
        }
    } else {
        match unescape(s.drop_first()) {
            Some(br) => Some((seq![s[0]] + br.0, br.1)),
            None => None,
        }
    }
}

/// The longest prefix of `s` made of number characters.
pub open spec fn num_token(s: Seq<char>) -> Seq<char>
    decreases s.len(),
{
    if s.len() == 0 || !is_num_char(s[0]) {
        Seq::empty()
    } else {
        seq![s[0]] + num_token(s.drop_first())
    }
}

/// Reads one JSON value from the front of `s`: yields the value and the
/// unread remainder.
pub open spec fn parse_value(s: Seq<char>) -> Option<(ValModel, Seq<char>)> {
    if s.len() == 0 {
        None
    } else if s[0] == '"' {
        match unescape(s.drop_first()) {
            Some(br) => Some((ValModel::Text(br.0), br.1)),
            None => None,
        }
    } else if s.len() >= 4 && s.take(4) == seq!['n', 'u', 'l', 'l'] {
        Some((ValModel::Null, s.skip(4)))
    } else {
        let t = num_token(s);
        if t.len() == 0 {
            None
        } else if is_int_token(t) {
            Some((ValModel::Integer(parse_int(t)), s.skip(t.len() as int)))
        } else {
            Some((ValModel::Real(t), s.skip(t.len() as int)))
        }
    }
}

/// Reads a non-empty comma-separated value list that must end with
/// `]` and the terminating newline.
pub open spec fn parse_vals_ne(s: Seq<char>) -> Option<Seq<ValModel>>
    decreases s.len(),
{
    match parse_value(s) {
        None => None,
        Some(vr) => {
            if vr.1 == seq![']', '\n'] {
                Some(seq![vr.0])
            } else if vr.1.len() > 0 && vr.1[0] == ',' && vr.1.drop_first().len() < s.len() {
                match parse_vals_ne(vr.1.drop_first()) {
                    Some(vs) => Some(seq![vr.0] + vs),
                    None => None,
                }
            } else {
                None
            }
        },
    }
}

/// Decodes one line: a JSON array of values, newline-terminated.
pub open spec fn parse_row(line: Seq<char>) -> Option<Seq<ValModel>> {
    if line.len() == 0 || line[0] != '[' {
        None
    } else if line.drop_first() == seq![']', '\n'] {
        Some(Seq::empty())
    } else {
        parse_vals_ne(line.drop_first())
    }
}

/// A real's number text as the codec expects it from the read edge:
/// non-empty, made of number characters only, and not itself an integer
/// token (a real rendering always carries a fraction or an exponent).
pub open spec fn wf_real_text(s: Seq<char>) -> bool {
    s.len() > 0 && (forall|i: int| 0 <= i < s.len() ==> is_num_char(#[trigger] s[i]))
        && !is_int_token(s)
}

/// The values for which decoding can reconstruct the original exactly.
pub open spec fn wf_val(v: ValModel) -> bool {
    match v {
        ValModel::Blob => false,
        ValModel::Real(s) => wf_real_text(s),
        _ => true,
    }
}

/// A row of reconstructible values.
pub open spec fn wf_row(vs: Seq<ValModel>) -> bool {
    forall|i: int| 0 <= i < vs.len() ==> wf_val(#[trigger] vs[i])
}

// ---------------------------------------------------------------------
// Round trip: decoding an encoded line yields the original row.
// ---------------------------------------------------------------------

proof fn lemma_dec_digits_shape(n: nat)
    ensures
        dec_digits(n).len() >= 1,
        all_digits(dec_digits(n)),
    decreases n,
{
    if n < 10 {
        assert(is_digit(digit_char(n as int)));
    } else {
        lemma_dec_digits_shape(n / 10);
        assert(is_digit(digit_char((n % 10) as int)));
        assert(forall|i: int|
            0 <= i < dec_digits(n).len() ==> is_digit(#[trigger] dec_digits(n)[i]));
    }
}

proof fn lemma_dec_val_digits(n: nat)
    ensures
        dec_val(dec_digits(n)) == n,
    decreases n,
{
    if n < 10 {
        assert(dec_digits(n) == seq![digit_char(n as int)]);
        assert(dec_digits(n).drop_last() =~= Seq::<char>::empty());
        assert(dec_val(Seq::<char>::empty()) == 0);
        assert(dec_digits(n).last() == digit_char(n as int));
        assert(digval(digit_char(n as int)) == n);
        assert(dec_val(dec_digits(n)) == dec_val(dec_digits(n).drop_last()) * 10 + digval(
            dec_digits(n).last(),
        ));
    } else {
        lemma_dec_val_digits(n / 10);
        assert(dec_digits(n).drop_last() =~= dec_digits(n / 10));
        assert(dec_digits(n).last() == digit_char((n % 10) as int));
        assert(digval(digit_char((n % 10) as int)) == n % 10);
        assert(dec_val(dec_digits(n)) == dec_val(dec_digits(n).drop_last()) * 10 + digval(
            dec_digits(n).last(),
        ));
    }
}

proof fn lemma_num_token_exact(t: Seq<char>, rest: Seq<char>)
    requires
        forall|i: int| 0 <= i < t.len() ==> is_num_char(#[trigger] t[i]),
        rest.len() > 0,
        !is_num_char(rest[0]),
    ensures
        num_token(t + rest) == t,
    decreases t.len(),
{
    if t.len() == 0 {
        assert(t + rest =~= rest);
        assert(num_token(rest) =~= Seq::<char>::empty());
    } else {
        assert((t + rest)[0] == t[0]);
        assert((t + rest).drop_first() =~= t.drop_first() + rest);
        lemma_num_token_exact(t.drop_first(), rest);
        assert(num_token(t + rest) =~= seq![t[0]] + t.drop_first());
        assert(seq![t[0]] + t.drop_first() =~= t);
    }
}

proof fn lemma_unescape_escape(s: Seq<char>, rest: Seq<char>)
    ensures
        unescape(escape(s) + seq!['"'] + rest) == Some((s, rest)),
    decreases s.len(),
{
    if s.len() == 0 {
        assert(escape(s) + seq!['"'] + rest =~= seq!['"'] + rest);
        assert((seq!['"'] + rest)[0] == '"');
        assert((seq!['"'] + rest).drop_first() =~= rest);
        assert(unescape(seq!['"'] + rest) == Some((Seq::<char>::empty(), rest)));
    } else {
        let c = s[0];
        let s2 = s.drop_first();
        lemma_unescape_escape(s2, rest);
        let u = escape(s2) + seq!['"'] + rest;
        let w = escape(s) + seq!['"'] + rest;
        assert(w =~= escape_char(c) + u);
        assert(seq![c] + s2 =~= s);
        if c == '"' || c == '\\' || c == '\u{8}' || c == '\t' || c == '\n' || c == '\u{c}'
            || c == '\r' {
            // a two-character short escape
            let e = escape_char(c);
            assert(e.len() == 2 && e[0] == '\\' && is_short_escape(e[1]));
            assert(unescape_short(e[1]) == c);
            assert(w[0] == '\\');
            assert(w[1] == e[1]);
            assert(w.skip(2) =~= u);
            assert(unescape(w) == Some((seq![c] + s2, rest)));
        } else if (c as u32) < 0x20 {
            let v = c as u32 as int;
            let e = escape_char(c);
            assert(e =~= seq!['\\', 'u', '0', '0', hex_char(v / 16), hex_char(v % 16)]);
            assert(w[0] == '\\');
            assert(w[1] == 'u');
            assert(!is_short_escape('u'));
            assert(w[2] == '0' && w[3] == '0');
            assert(w[4] == hex_char(v / 16) && w[5] == hex_char(v % 16));
            assert(is_hex_digit(hex_char(v / 16)) && hexval(hex_char(v / 16)) == v / 16);
            assert(is_hex_digit(hex_char(v % 16)) && hexval(hex_char(v % 16)) == v % 16);
            assert(w.skip(6) =~= u);
            assert(v / 16 * 16 + v % 16 == v);
            assert((hexval(w[4]) * 16 + hexval(w[5])) as u32 == c as u32);
            vstd::utf8::char_u32_cast(c, (hexval(w[4]) * 16 + hexval(w[5])) as u32);
            assert((((hexval(w[4]) * 16 + hexval(w[5])) as u32) as char) == c);
            assert(unescape(w) == Some((seq![c] + s2, rest)));
        } else {
            assert(escape_char(c) =~= seq![c]);
            assert(w[0] == c);
            assert(w.drop_first() =~= u);
            assert(unescape(w) == Some((seq![c] + s2, rest)));
        }
    }
}

proof fn lemma_int_dec_shape(i: int)
    ensures
        int_dec(i).len() >= 1,
        is_int_token(int_dec(i)),
        forall|j: int| 0 <= j < int_dec(i).len() ==> is_num_char(#[trigger] int_dec(i)[j]),
        parse_int(int_dec(i)) == i,
        is_digit(int_dec(i)[0]) || int_dec(i)[0] == '-',
{
    if i < 0 {
        lemma_dec_digits_shape((-i) as nat);
        lemma_dec_val_digits((-i) as nat);
        assert(int_dec(i) =~= seq!['-'] + dec_digits((-i) as nat));
        assert(int_dec(i)[0] == '-');
        assert(int_dec(i).drop_first() =~= dec_digits((-i) as nat));
        assert(parse_int(int_dec(i)) == -dec_val(dec_digits((-i) as nat)));
    } else {
        lemma_dec_digits_shape(i as nat);
        lemma_dec_val_digits(i as nat);
        assert(int_dec(i) == dec_digits(i as nat));
        assert(is_digit(int_dec(i)[0]));
        assert(int_dec(i)[0] != '-');
    }
}

proof fn lemma_json_of_len(v: ValModel)
    requires
        wf_val(v),
    ensures
        json_of(v).len() >= 1,
{
    match v {
        ValModel::Integer(i) => {
            lemma_int_dec_shape(i);
        },
        _ => {},
    }
}

proof fn lemma_parse_value(v: ValModel, rest: Seq<char>)
    requires
        wf_val(v),
        rest.len() > 0,
        rest[0] == ',' || rest[0] == ']',
    ensures
        parse_value(json_of(v) + rest) == Some((v, rest)),
{
    let s = json_of(v) + rest;
    assert(!is_num_char(rest[0]));
    match v {
        ValModel::Null => {
            assert(s =~= seq!['n', 'u', 'l', 'l'] + rest);
            assert(s[0] == 'n' && s[0] != '"');
            assert(s.len() >= 4);
            assert(s.take(4) =~= seq!['n', 'u', 'l', 'l']);
            assert(s.skip(4) =~= rest);
        },
        ValModel::Integer(i) => {
            lemma_int_dec_shape(i);
            let t = int_dec(i);
            assert(s[0] == t[0]);
            assert(s[0] != '"' && s[0] != 'n');
            if s.len() >= 4 {
                assert(s.take(4)[0] == s[0]);
                assert(s.take(4) != seq!['n', 'u', 'l', 'l']);
            }
            lemma_num_token_exact(t, rest);
            assert(num_token(s) == t);
            assert(s.skip(t.len() as int) =~= rest);
        },
        ValModel::Real(r) => {
            let t = r;
            assert(s[0] == t[0]);
            assert(is_num_char(t[0]));
            assert(s[0] != '"' && s[0] != 'n');
            if s.len() >= 4 {
                assert(s.take(4)[0] == s[0]);
                assert(s.take(4) != seq!['n', 'u', 'l', 'l']);
            }
            lemma_num_token_exact(t, rest);
            assert(num_token(s) == t);
            assert(s.skip(t.len() as int) =~= rest);
        },
        ValModel::Text(b) => {
            assert(s =~= seq!['"'] + (escape(b) + seq!['"'] + rest));
            assert(s[0] == '"');
            assert(s.drop_first() =~= escape(b) + seq!['"'] + rest);
            lemma_unescape_escape(b, rest);
        },
        ValModel::Blob => {},
    }
}

proof fn lemma_parse_vals(vs: Seq<ValModel>)
    requires
        wf_row(vs),
        vs.len() > 0,
    ensures
        parse_vals_ne(json_vals(vs) + seq![']', '\n']) == Some(vs),
    decreases vs.len(),
{
    let tail = seq![']', '\n'];
    let s = json_vals(vs) + tail;
    if vs.len() == 1 {
        assert(json_vals(vs) == json_of(vs[0]));
        lemma_parse_value(vs[0], tail);
        assert(parse_value(s) == Some((vs[0], tail)));
        assert(seq![vs[0]] =~= vs);
    } else {
        let vs2 = vs.drop_first();
        assert(wf_row(vs2));
        assert(json_vals(vs) == json_of(vs[0]) + seq![','] + json_vals(vs2));
        let rest = seq![','] + json_vals(vs2) + tail;
        assert(s =~= json_of(vs[0]) + rest);
        lemma_parse_value(vs[0], rest);
        assert(parse_value(s) == Some((vs[0], rest)));
        lemma_json_of_len(vs2[0]);
        if vs2.len() == 1 {
            assert(json_vals(vs2) == json_of(vs2[0]));
        }
        assert(json_vals(vs2).len() >= 1);
        assert(rest.len() >= 4);
        assert(rest != tail);
        lemma_json_of_len(vs[0]);
        assert(rest.drop_first().len() < s.len());
        assert(rest.drop_first() =~= json_vals(vs2) + tail);
        lemma_parse_vals(vs2);
        assert(seq![vs[0]] + vs2 =~= vs);
    }
}

/// Round trip of the row encoding: decoding the encoded line of any row
/// of {null, integer, real, text} values reconstructs exactly the
/// original values. Reals take part as their rendered number text, which
/// always carries a fraction or an exponent and so is never read back as
/// an integer.
pub proof fn lemma_row_round_trip(vs: Seq<ValModel>)
    requires
        wf_row(vs),
    ensures
        parse_row(json_row(vs)) == Some(vs),
{
    let line = json_row(vs);
    assert(line[0] == '[');
    assert(line.drop_first() =~= json_vals(vs) + seq![']', '\n']);
    if vs.len() == 0 {
        assert(json_vals(vs) == Seq::<char>::empty());
        assert(line.drop_first() =~= seq![']', '\n']);
    } else {
        lemma_json_of_len(vs[0]);
        if vs.len() == 1 {
            assert(json_vals(vs) == json_of(vs[0]));
        }
        assert(json_vals(vs).len() >= 1);
        assert(line.drop_first().len() >= 3);
        assert(line.drop_first() != seq![']', '\n']);
        lemma_parse_vals(vs);
    }
}

/// Relies on `String: FromIterator<char>`: collecting an iterator of
/// characters yields the string made of exactly those characters in order.
#[verifier::external_body]
fn chars_to_string(v: &Vec<char>) -> (r: String)
    ensures
        r@ == v@,
{
    v.iter().collect()
}

} // verus!
