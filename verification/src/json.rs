//! A JSON codec with a proved round trip: the canonical rendering of
//! a value parses back to the value. Strings escape only quotes and
//! backslashes, numbers are 64-bit integers, and no whitespace is
//! written — the grammar the parser accepts is exactly the one the
//! serializer emits.
use vstd::prelude::*;

verus! {

/// Mathematical model of a JSON document. Strings are sequences of
/// characters, numbers are unbounded integers (the executable type
/// restricts them to `i64`), and objects keep their fields in order.
#[verifier::ext_equal]
pub enum JsonV {
    Null,
    Bool(bool),
    Int(int),
    Text(Seq<char>),
    Arr(Seq<JsonV>),
    Obj(Seq<(Seq<char>, JsonV)>),
}

/// A JSON value as held at run time. Numbers are 64-bit signed integers:
/// the wire format of this library never carries fractions, and every
/// identifier it produces fits in 53 bits.
#[derive(Debug)]
pub enum JsonValue {
    Null,
    Bool(bool),
    Int(i64),
    Text(String),
    Arr(Vec<JsonValue>),
    Obj(Vec<(String, JsonValue)>),
}

/// The mathematical value of a run-time JSON value.
pub open spec fn view_val(v: JsonValue) -> JsonV
    decreases v,
{
    match v {
        JsonValue::Null => JsonV::Null,
        JsonValue::Bool(b) => JsonV::Bool(b),
        JsonValue::Int(i) => JsonV::Int(i as int),
        JsonValue::Text(s) => JsonV::Text(s@),
        JsonValue::Arr(items) => JsonV::Arr(view_items(items@)),
        JsonValue::Obj(fields) => JsonV::Obj(view_fields(fields@)),
    }
}

/// The mathematical values of a sequence of run-time JSON values.
pub open spec fn view_items(s: Seq<JsonValue>) -> Seq<JsonV>
    decreases s,
{
    if s.len() == 0 {
        Seq::empty()
    } else {
        seq![view_val(s[0])] + view_items(s.drop_first())
    }
}

/// The mathematical values of a sequence of run-time object members.
pub open spec fn view_fields(s: Seq<(String, JsonValue)>) -> Seq<(Seq<char>, JsonV)>
    decreases s,
{
    if s.len() == 0 {
        Seq::empty()
    } else {
        seq![(s[0].0@, view_val(s[0].1))] + view_fields(s.drop_first())
    }
}

impl View for JsonValue {
    type V = JsonV;

    open spec fn view(&self) -> JsonV {
        view_val(*self)
    }
}

/// The value sequence of an extended sequence ends with the new value.
pub proof fn lemma_view_items_push(s: Seq<JsonValue>, x: JsonValue)
    ensures
        view_items(s.push(x)) == view_items(s).push(view_val(x)),
    decreases s.len(),
{
    if s.len() == 0 {
        assert(s =~= Seq::<JsonValue>::empty());
        assert(s.push(x)[0] == x);
        assert(s.push(x).drop_first() =~= s);
        assert(view_items(s.push(x)) =~= view_items(s).push(view_val(x)));
    } else {
        assert(s.push(x).drop_first() =~= s.drop_first().push(x));
        lemma_view_items_push(s.drop_first(), x);
        assert(view_items(s.push(x)) =~= view_items(s).push(view_val(x)));
    }
}

/// The member analogue of `lemma_view_items_push`.
pub proof fn lemma_view_fields_push(s: Seq<(String, JsonValue)>, x: (String, JsonValue))
    ensures
        view_fields(s.push(x)) == view_fields(s).push((x.0@, view_val(x.1))),
    decreases s.len(),
{
    if s.len() == 0 {
        assert(s =~= Seq::<(String, JsonValue)>::empty());
        assert(s.push(x)[0] == x);
        assert(s.push(x).drop_first() =~= s);
        assert(view_fields(s.push(x)) =~= view_fields(s).push((x.0@, view_val(x.1))));
    } else {
        assert(s.push(x).drop_first() =~= s.drop_first().push(x));
        lemma_view_fields_push(s.drop_first(), x);
        assert(view_fields(s.push(x)) =~= view_fields(s).push((x.0@, view_val(x.1))));
    }
}

/// The decimal digits of `n`, most significant first.
pub open spec fn dec_digits(n: nat) -> Seq<char>
    decreases n,
{
    if n < 10 {
        seq![digit_char(n)]
    } else {
        dec_digits(n / 10) + seq![digit_char(n % 10)]
    }
}

/// The character for a single decimal digit.
pub open spec fn digit_char(d: nat) -> char {
    if d == 0 { '0' }
    else if d == 1 { '1' }
    else if d == 2 { '2' }
    else if d == 3 { '3' }
    else if d == 4 { '4' }
    else if d == 5 { '5' }
    else if d == 6 { '6' }
    else if d == 7 { '7' }
    else if d == 8 { '8' }
    else { '9' }
}

/// Rendering of a (possibly negative) integer in decimal.
pub open spec fn ser_int(i: int) -> Seq<char> {
    if i < 0 {
        seq!['-'] + dec_digits((-i) as nat)
    } else {
        dec_digits(i as nat)
    }
}

/// The character of one hexadecimal digit, lower case.
pub open spec fn hex_char(d: nat) -> char {
    if d < 10 {
        digit_char(d)
    } else if d == 10 { 'a' }
    else if d == 11 { 'b' }
    else if d == 12 { 'c' }
    else if d == 13 { 'd' }
    else if d == 14 { 'e' }
    else { 'f' }
}

/// Whether `c` is a hexadecimal digit, either case.
pub open spec fn is_hex(c: char) -> bool {
    is_digit(c) || c == 'a' || c == 'b' || c == 'c' || c == 'd' || c == 'e' || c == 'f' || c == 'A'
        || c == 'B' || c == 'C' || c == 'D' || c == 'E' || c == 'F'
}

/// The numeric value of a hexadecimal digit (zero on anything else).
pub open spec fn hex_val(c: char) -> int {
    if c == 'a' || c == 'A' { 10 }
    else if c == 'b' || c == 'B' { 11 }
    else if c == 'c' || c == 'C' { 12 }
    else if c == 'd' || c == 'D' { 13 }
    else if c == 'e' || c == 'E' { 14 }
    else if c == 'f' || c == 'F' { 15 }
    else { digit_val(c) }
}

/// JSON whitespace: space, tab, line feed, carriage return.
pub open spec fn is_ws(c: char) -> bool {
    c == ' ' || c == '\t' || c == '\n' || c == '\r'
}

/// The first position at or after `pos` that holds no whitespace.
pub open spec fn skip_ws(s: Seq<char>, pos: int) -> int
    decreases s.len() - pos,
    when 0 <= pos <= s.len()
{
    if pos < s.len() && is_ws(s[pos]) {
        skip_ws(s, pos + 1)
    } else {
        pos
    }
}

/// Rendering of one character inside a JSON string: quotes and
/// backslashes are escaped, control characters take their four-digit
/// escape, everything else stands for itself.
pub open spec fn esc_char(c: char) -> Seq<char> {
    if c == '"' {
        seq!['\\', '"']
    } else if c == '\\' {
        seq!['\\', '\\']
    } else if (c as u32) < 32 {
        seq![
            '\\',
            'u',
            '0',
            '0',
            hex_char(((c as u32) / 16) as nat),
            hex_char(((c as u32) % 16) as nat),
        ]
    } else {
        seq![c]
    }
}

/// The character a single-letter escape stands for.
pub open spec fn short_escape(e: char) -> char {
    if e == 'b' { '\u{8}' }
    else if e == 'f' { '\u{c}' }
    else if e == 'n' { '\n' }
    else if e == 'r' { '\r' }
    else { '\t' }
}

/// Rendering of the characters of a JSON string, escapes applied.
pub open spec fn esc_seq(s: Seq<char>) -> Seq<char>
    decreases s.len(),
{
    if s.len() == 0 {
        Seq::empty()
    } else {
        esc_char(s[0]) + esc_seq(s.drop_first())
    }
}

/// Rendering of a JSON string, quotes included.
pub open spec fn ser_text(s: Seq<char>) -> Seq<char> {
    seq!['"'] + esc_seq(s) + seq!['"']
}

/// Canonical rendering of a JSON value: no whitespace, minimal escapes,
/// fields in the order the object holds them.
pub open spec fn ser_value(v: JsonV) -> Seq<char>
    decreases v,
{
    match v {
        JsonV::Null => seq!['n', 'u', 'l', 'l'],
        JsonV::Bool(b) => if b {
            seq!['t', 'r', 'u', 'e']
        } else {
            seq!['f', 'a', 'l', 's', 'e']
        },
        JsonV::Int(i) => ser_int(i),
        JsonV::Text(s) => ser_text(s),
        JsonV::Arr(items) => seq!['['] + ser_items(items) + seq![']'],
        JsonV::Obj(fields) => seq!['{'] + ser_fields(fields) + seq!['}'],
    }
}

/// Rendering of the comma-separated elements of an array.
pub open spec fn ser_items(items: Seq<JsonV>) -> Seq<char>
    decreases items,
{
    if items.len() == 0 {
        Seq::empty()
    } else if items.len() == 1 {
        ser_value(items[0])
    } else {
        ser_value(items[0]) + seq![','] + ser_items(items.drop_first())
    }
}

/// Rendering of the comma-separated members of an object.
pub open spec fn ser_fields(fields: Seq<(Seq<char>, JsonV)>) -> Seq<char>
    decreases fields,
{
    if fields.len() == 0 {
        Seq::empty()
    } else if fields.len() == 1 {
        ser_text(fields[0].0) + seq![':'] + ser_value(fields[0].1)
    } else {
        ser_text(fields[0].0) + seq![':'] + ser_value(fields[0].1) + seq![','] + ser_fields(
            fields.drop_first(),
        )
    }
}


/// Appending a value to an array extends its rendering with a comma and
/// the rendering of the value (the comma only after a first element).
pub proof fn lemma_ser_items_push(s: Seq<JsonV>, v: JsonV)
    ensures
        ser_items(s.push(v)) == if s.len() == 0 {
            ser_value(v)
        } else {
            ser_items(s) + seq![','] + ser_value(v)
        },
    decreases s.len(),
{
    if s.len() == 0 {
        assert(s.push(v)[0] == v);
    } else {
        assert(s.push(v).drop_first() =~= s.drop_first().push(v));
        lemma_ser_items_push(s.drop_first(), v);
        if s.len() == 1 {
            assert(ser_items(s) == ser_value(s[0]));
        }
        assert(ser_items(s.push(v)) == ser_value(s[0]) + seq![','] + ser_items(
            s.drop_first().push(v),
        ));
    }
}

/// The member analogue of `lemma_ser_items_push`.
pub proof fn lemma_ser_fields_push(s: Seq<(Seq<char>, JsonV)>, k: Seq<char>, v: JsonV)
    ensures
        ser_fields(s.push((k, v))) == if s.len() == 0 {
            ser_text(k) + seq![':'] + ser_value(v)
        } else {
            ser_fields(s) + seq![','] + ser_text(k) + seq![':'] + ser_value(v)
        },
    decreases s.len(),
{
    if s.len() == 0 {
        assert(s.push((k, v))[0] == (k, v));
    } else {
        assert(s.push((k, v)).drop_first() =~= s.drop_first().push((k, v)));
        lemma_ser_fields_push(s.drop_first(), k, v);
    }
}

/// Appending a character to a string extends its escaped rendering.
pub proof fn lemma_esc_seq_push(s: Seq<char>, c: char)
    ensures
        esc_seq(s.push(c)) == esc_seq(s) + esc_char(c),
    decreases s.len(),
{
    if s.len() == 0 {
        assert(s =~= Seq::<char>::empty());
        assert(s.push(c)[0] == c);
        assert(s.push(c).drop_first() =~= s);
        assert(esc_seq(s) =~= Seq::<char>::empty());
        assert(esc_seq(s.push(c)) =~= esc_char(c) + Seq::<char>::empty());
        assert(esc_char(c) + Seq::<char>::empty() =~= esc_char(c));
        assert(esc_seq(s) + esc_char(c) =~= esc_char(c));
    } else {
        assert(s.push(c).drop_first() =~= s.drop_first().push(c));
        lemma_esc_seq_push(s.drop_first(), c);
        assert(esc_seq(s.push(c)) =~= esc_char(s[0]) + (esc_seq(s.drop_first()) + esc_char(c)));
        assert(esc_char(s[0]) + (esc_seq(s.drop_first()) + esc_char(c)) =~= (esc_char(s[0])
            + esc_seq(s.drop_first())) + esc_char(c));
    }
}

/// Relies on String::push: appends the given character to the end of the
/// string.
#[verifier::external_body]
fn push_char(out: &mut String, c: char)
    ensures
        final(out)@ == old(out)@.push(c),
{
    out.push(c);
}

/// The character of a hexadecimal digit below sixteen, lower case.
fn hex_to_char(d: u32) -> (c: char)
    requires
        d < 16,
    ensures
        c == hex_char(d as nat),
{
    if d == 0 { '0' }
    else if d == 1 { '1' }
    else if d == 2 { '2' }
    else if d == 3 { '3' }
    else if d == 4 { '4' }
    else if d == 5 { '5' }
    else if d == 6 { '6' }
    else if d == 7 { '7' }
    else if d == 8 { '8' }
    else if d == 9 { '9' }
    else if d == 10 { 'a' }
    else if d == 11 { 'b' }
    else if d == 12 { 'c' }
    else if d == 13 { 'd' }
    else if d == 14 { 'e' }
    else { 'f' }
}

/// The character of a decimal digit below ten.
fn digit_to_char(d: u64) -> (c: char)
    requires
        d < 10,
    ensures
        c == digit_char(d as nat),
{
    if d == 0 { '0' }
    else if d == 1 { '1' }
    else if d == 2 { '2' }
    else if d == 3 { '3' }
    else if d == 4 { '4' }
    else if d == 5 { '5' }
    else if d == 6 { '6' }
    else if d == 7 { '7' }
    else if d == 8 { '8' }
    else { '9' }
}

/// Append the decimal digits of `n`, most significant first.
fn append_digits(out: &mut String, n: u64)
    ensures
        final(out)@ == old(out)@ + dec_digits(n as nat),
    decreases n,
{
    if n < 10 {
        let c = digit_to_char(n);
        push_char(out, c);
        proof {
            assert(old(out)@.push(c) =~= old(out)@ + dec_digits(n as nat));
        }
    } else {
        append_digits(out, n / 10);
        let c = digit_to_char(n % 10);
        push_char(out, c);
        proof {
            assert((old(out)@ + dec_digits((n / 10) as nat)).push(c) =~= old(out)@ + dec_digits(
                n as nat,
            ));
        }
    }
}

/// Append the decimal rendering of a signed integer.
fn append_int(out: &mut String, i: i64)
    ensures
        final(out)@ == old(out)@ + ser_int(i as int),
{
    if i < 0 {
        push_char(out, '-');
        let m: u64 = ((-(i + 1)) as u64) + 1;
        proof {
            assert(m as int == -(i as int));
        }
        append_digits(out, m);
        proof {
            assert(old(out)@.push('-') + dec_digits(m as nat) =~= old(out)@ + ser_int(i as int));
        }
    } else {
        append_digits(out, i as u64);
    }
}

/// Append the escaped characters of `s` (no surrounding quotes).
fn append_escaped(out: &mut String, s: &str)
    ensures
        final(out)@ == old(out)@ + esc_seq(s@),
{
    let n = s.unicode_len();
    let mut i: usize = 0;
    proof {
        assert(s@.subrange(0, 0) =~= Seq::<char>::empty());
        assert(out@ + esc_seq(s@.subrange(0, 0)) =~= out@);
    }
    while i < n
        invariant
            n == s@.len(),
            i <= n,
            out@ == old(out)@ + esc_seq(s@.subrange(0, i as int)),
        decreases n - i,
    {
        let c = s.get_char(i);
        if c == '"' {
            push_char(out, '\\');
            push_char(out, '"');
        } else if c == '\\' {
            push_char(out, '\\');
            push_char(out, '\\');
        } else if (c as u32) < 32 {
            push_char(out, '\\');
            push_char(out, 'u');
            push_char(out, '0');
            push_char(out, '0');
            let hi = hex_to_char((c as u32) / 16);
            push_char(out, hi);
            let lo = hex_to_char((c as u32) % 16);
            push_char(out, lo);
        } else {
            push_char(out, c);
        }
        proof {
            assert(s@.subrange(0, i + 1) =~= s@.subrange(0, i as int).push(c));
            lemma_esc_seq_push(s@.subrange(0, i as int), c);
            assert(out@ =~= old(out)@ + esc_seq(s@.subrange(0, i + 1)));
        }
        i = i + 1;
    }
    proof {
        assert(s@.subrange(0, n as int) =~= s@);
    }
}

/// Append the rendering of a JSON string, quotes included.
fn append_quoted(out: &mut String, s: &str)
    ensures
        final(out)@ == old(out)@ + ser_text(s@),
{
    push_char(out, '"');
    append_escaped(out, s);
    push_char(out, '"');
    proof {
        assert((old(out)@.push('"') + esc_seq(s@)).push('"') =~= old(out)@ + ser_text(s@));
    }
}

/// Append the canonical rendering of a JSON value.
#[verifier::loop_isolation(false)]
#[verifier::rlimit(80)]
fn append_value(out: &mut String, v: &JsonValue)
    ensures
        final(out)@ == old(out)@ + ser_value(v@),
    decreases v,
{
    match v {
        JsonValue::Null => {
            push_char(out, 'n');
            push_char(out, 'u');
            push_char(out, 'l');
            push_char(out, 'l');
            proof {
                assert(old(out)@.push('n').push('u').push('l').push('l') =~= old(out)@ + ser_value(
                    v@,
                ));
            }
        },
        JsonValue::Bool(b) => {
            if *b {
                push_char(out, 't');
                push_char(out, 'r');
                push_char(out, 'u');
                push_char(out, 'e');
                proof {
                    assert(old(out)@.push('t').push('r').push('u').push('e') =~= old(out)@
                        + ser_value(v@));
                }
            } else {
                push_char(out, 'f');
                push_char(out, 'a');
                push_char(out, 'l');
                push_char(out, 's');
                push_char(out, 'e');
                proof {
                    assert(old(out)@.push('f').push('a').push('l').push('s').push('e') =~= old(
                        out,
                    )@ + ser_value(v@));
                }
            }
        },
        JsonValue::Int(i) => {
            append_int(out, *i);
        },
        JsonValue::Text(s) => {
            append_quoted(out, s.as_str());
        },
        JsonValue::Arr(items) => {
            push_char(out, '[');
            let ghost base = out@;
            let mut idx: usize = 0;
            proof {
                assert(view_items(items@.subrange(0, 0)) =~= Seq::<JsonV>::empty());
                assert(base + ser_items(view_items(items@.subrange(0, 0))) =~= base);
            }
            while idx < items.len()
                invariant
                    idx <= items@.len(),
                    out@ == base + ser_items(view_items(items@.subrange(0, idx as int))),
                decreases items@.len() - idx,
            {
                proof {
                    assert((*v)->Arr_0 == *items);
                    assert(decreases_to!(*v => (*v)->Arr_0));
                    assert(decreases_to!(*items => items@));
                    assert(decreases_to!(items@ => items@[idx as int]));
                }
                if idx > 0 {
                    push_char(out, ',');
                    append_value(out, &items[idx]);
                    proof {
                        assert(items@.subrange(0, idx + 1) =~= items@.subrange(
                            0,
                            idx as int,
                        ).push(items@[idx as int]));
                        lemma_view_items_push(items@.subrange(0, idx as int), items@[idx as int]);
                        lemma_ser_items_push(
                            view_items(items@.subrange(0, idx as int)),
                            items@[idx as int]@,
                        );
                        assert(out@ =~= base + ser_items(view_items(items@.subrange(0, idx + 1))));
                    }
                } else {
                    append_value(out, &items[idx]);
                    proof {
                        assert(items@.subrange(0, idx + 1) =~= items@.subrange(
                            0,
                            idx as int,
                        ).push(items@[idx as int]));
                        lemma_view_items_push(items@.subrange(0, idx as int), items@[idx as int]);
                        lemma_ser_items_push(
                            view_items(items@.subrange(0, idx as int)),
                            items@[idx as int]@,
                        );
                        assert(out@ =~= base + ser_items(view_items(items@.subrange(0, idx + 1))));
                    }
                }
                idx = idx + 1;
            }
            push_char(out, ']');
            proof {
                assert(items@.subrange(0, items@.len() as int) =~= items@);
                assert(base + ser_items(view_items(items@)) + seq![']'] =~= old(out)@ + ser_value(
                    v@,
                ));
                assert((base + ser_items(view_items(items@))).push(']') =~= base + ser_items(
                    view_items(items@),
                ) + seq![']']);
            }
        },
        JsonValue::Obj(fields) => {
            push_char(out, '{');
            let ghost base = out@;
            let mut idx: usize = 0;
            proof {
                assert(view_fields(fields@.subrange(0, 0)) =~= Seq::<(Seq<char>, JsonV)>::empty());
                assert(base + ser_fields(view_fields(fields@.subrange(0, 0))) =~= base);
            }
            while idx < fields.len()
                invariant
                    idx <= fields@.len(),
                    out@ == base + ser_fields(view_fields(fields@.subrange(0, idx as int))),
                decreases fields@.len() - idx,
            {
                proof {
                    assert((*v)->Obj_0 == *fields);
                    assert(decreases_to!(*v => (*v)->Obj_0));
                    assert(decreases_to!(*fields => fields@));
                    assert(decreases_to!(fields@ => fields@[idx as int]));
                    assert(decreases_to!(fields@[idx as int] => fields@[idx as int].1));
                }
                if idx > 0 {
                    push_char(out, ',');
                }
                append_quoted(out, fields[idx].0.as_str());
                push_char(out, ':');
                append_value(out, &fields[idx].1);
                proof {
                    assert(fields@.subrange(0, idx + 1) =~= fields@.subrange(
                        0,
                        idx as int,
                    ).push(fields@[idx as int]));
                    lemma_view_fields_push(fields@.subrange(0, idx as int), fields@[idx as int]);
                    lemma_ser_fields_push(
                        view_fields(fields@.subrange(0, idx as int)),
                        fields@[idx as int].0@,
                        fields@[idx as int].1@,
                    );
                    assert(out@ =~= base + ser_fields(view_fields(fields@.subrange(0, idx + 1))));
                }
                idx = idx + 1;
            }
            push_char(out, '}');
            proof {
                assert(fields@.subrange(0, fields@.len() as int) =~= fields@);
                assert((base + ser_fields(view_fields(fields@))).push('}') =~= old(out)@
                    + ser_value(v@));
            }
        },
    }
}

/// The canonical JSON text of a value.
pub fn to_text(v: &JsonValue) -> (r: String)
    ensures
        r@ == ser_value(v@),
{
    let mut out = String::new();
    append_value(&mut out, v);
    proof {
        assert(Seq::<char>::empty() + ser_value(v@) =~= ser_value(v@));
    }
    out
}


/// Whether `c` is a decimal digit.
pub open spec fn is_digit(c: char) -> bool {
    c == '0' || c == '1' || c == '2' || c == '3' || c == '4' || c == '5' || c == '6' || c == '7'
        || c == '8' || c == '9'
}

/// The numeric value of a digit character (zero on anything else).
pub open spec fn digit_val(c: char) -> int {
    if c == '1' { 1 }
    else if c == '2' { 2 }
    else if c == '3' { 3 }
    else if c == '4' { 4 }
    else if c == '5' { 5 }
    else if c == '6' { 6 }
    else if c == '7' { 7 }
    else if c == '8' { 8 }
    else if c == '9' { 9 }
    else { 0 }
}

/// The first position at or after `pos` that does not hold a digit.
pub open spec fn digit_run_end(s: Seq<char>, pos: int) -> int
    decreases s.len() - pos,
    when 0 <= pos <= s.len()
{
    if pos < s.len() && is_digit(s[pos]) {
        digit_run_end(s, pos + 1)
    } else {
        pos
    }
}

/// The value of the digits `s[pos..end]`, most significant first.
pub open spec fn digits_val(s: Seq<char>, pos: int, end: int) -> int
    decreases end - pos,
    when pos <= end
{
    if pos >= end {
        0
    } else {
        digits_val(s, pos, end - 1) * 10 + digit_val(s[end - 1])
    }
}

/// Meaning of a number starting at `pos`: the maximal digit run, one
/// optional leading minus, no leading zeros, and a value that fits in
/// an `i64`; anything else does not parse.
pub open spec fn sparse_number(s: Seq<char>, pos: int) -> Option<(JsonV, int)>
    recommends 0 <= pos <= s.len(),
{
    if pos < s.len() && s[pos] == '-' {
        let e = digit_run_end(s, pos + 1);
        if e == pos + 1 || e - (pos + 1) > 19 || s[pos + 1] == '0' {
            None
        } else {
            let m = digits_val(s, pos + 1, e);
            if m > 0x8000000000000000 {
                None
            } else {
                Some((JsonV::Int(-m), e))
            }
        }
    } else {
        let e = digit_run_end(s, pos);
        if e == pos || e - pos > 19 || (s[pos] == '0' && e > pos + 1) {
            None
        } else {
            let m = digits_val(s, pos, e);
            if m > 0x7fffffffffffffff {
                None
            } else {
                Some((JsonV::Int(m), e))
            }
        }
    }
}

/// Meaning of the body of a string starting just after the opening
/// quote: characters up to the closing quote, with the standard JSON
/// escapes resolved — quote, backslash, slash, the five single-letter
/// escapes, and four-digit `u` escapes outside the surrogate range.
pub open spec fn sparse_text_chars(s: Seq<char>, pos: int) -> Option<(Seq<char>, int)>
    decreases s.len() - pos,
    when 0 <= pos <= s.len()
{
    if pos >= s.len() {
        None
    } else if s[pos] == '"' {
        Some((Seq::empty(), pos + 1))
    } else if s[pos] == '\\' {
        if pos + 1 >= s.len() {
            None
        } else {
            let e = s[pos + 1];
            if e == '"' || e == '\\' || e == '/' {
                match sparse_text_chars(s, pos + 2) {
                    Some((t, q)) => Some((seq![e] + t, q)),
                    None => None,
                }
            } else if e == 'b' || e == 'f' || e == 'n' || e == 'r' || e == 't' {
                match sparse_text_chars(s, pos + 2) {
                    Some((t, q)) => Some((seq![short_escape(e)] + t, q)),
                    None => None,
                }
            } else if e == 'u' {
                if pos + 6 <= s.len() && is_hex(s[pos + 2]) && is_hex(s[pos + 3]) && is_hex(
                    s[pos + 4],
                ) && is_hex(s[pos + 5]) {
                    let v = hex_val(s[pos + 2]) * 4096 + hex_val(s[pos + 3]) * 256 + hex_val(
                        s[pos + 4],
                    ) * 16 + hex_val(s[pos + 5]);
                    if 0xD800 <= v < 0xE000 {
                        None
                    } else {
                        match sparse_text_chars(s, pos + 6) {
                            Some((t, q)) => Some((seq![(v as u32) as char] + t, q)),
                            None => None,
                        }
                    }
                } else {
                    None
                }
            } else {
                None
            }
        }
    } else {
        match sparse_text_chars(s, pos + 1) {
            Some((t, e)) => Some((seq![s[pos]] + t, e)),
            None => None,
        }
    }
}

/// Meaning of a JSON value starting at `pos`: the parsed value and the
/// position just after it. Whitespace before the value and around the
/// delimiters of arrays and objects is skipped; numbers are integral.
pub open spec fn sparse_value(s: Seq<char>, pos: int) -> Option<(JsonV, int)>
    decreases s.len() - pos, 2int,
    when 0 <= pos <= s.len()
{
    let p = skip_ws(s, pos);
    if !(pos <= p <= s.len()) {
        None  // never taken: the skip stays within the text
    } else if p >= s.len() {
        None
    } else if s[p] == 'n' {
        if p + 4 <= s.len() && s[p + 1] == 'u' && s[p + 2] == 'l' && s[p + 3] == 'l' {
            Some((JsonV::Null, p + 4))
        } else {
            None
        }
    } else if s[p] == 't' {
        if p + 4 <= s.len() && s[p + 1] == 'r' && s[p + 2] == 'u' && s[p + 3] == 'e' {
            Some((JsonV::Bool(true), p + 4))
        } else {
            None
        }
    } else if s[p] == 'f' {
        if p + 5 <= s.len() && s[p + 1] == 'a' && s[p + 2] == 'l' && s[p + 3] == 's' && s[p + 4]
            == 'e' {
            Some((JsonV::Bool(false), p + 5))
        } else {
            None
        }
    } else if s[p] == '"' {
        match sparse_text_chars(s, p + 1) {
            Some((t, e)) => Some((JsonV::Text(t), e)),
            None => None,
        }
    } else if s[p] == '[' {
        let p2 = skip_ws(s, p + 1);
        if !(p + 1 <= p2 <= s.len()) {
            None  // never taken
        } else if p2 < s.len() && s[p2] == ']' {
            Some((JsonV::Arr(Seq::empty()), p2 + 1))
        } else {
            match sparse_items(s, p + 1) {
                Some((vs, e)) => Some((JsonV::Arr(vs), e)),
                None => None,
            }
        }
    } else if s[p] == '{' {
        let p2 = skip_ws(s, p + 1);
        if !(p + 1 <= p2 <= s.len()) {
            None  // never taken
        } else if p2 < s.len() && s[p2] == '}' {
            Some((JsonV::Obj(Seq::empty()), p2 + 1))
        } else {
            match sparse_fields(s, p + 1) {
                Some((fs, e)) => Some((JsonV::Obj(fs), e)),
                None => None,
            }
        }
    } else if s[p] == '-' || is_digit(s[p]) {
        sparse_number(s, p)
    } else {
        None
    }
}

/// Meaning of the elements of a non-empty array, the closing bracket
/// included.
pub open spec fn sparse_items(s: Seq<char>, pos: int) -> Option<(Seq<JsonV>, int)>
    decreases s.len() - pos, 3int,
    when 0 <= pos <= s.len()
{
    match sparse_value(s, pos) {
        Some((v, e)) => if !(pos < e && e <= s.len()) {
            None
        } else {
            let e2 = skip_ws(s, e);
            if !(e <= e2 <= s.len()) {
                None  // never taken
            } else if e2 < s.len() && s[e2] == ',' {
                match sparse_items(s, e2 + 1) {
                    Some((vs, q)) => Some((seq![v] + vs, q)),
                    None => None,
                }
            } else if e2 < s.len() && s[e2] == ']' {
                Some((seq![v], e2 + 1))
            } else {
                None
            }
        },
        None => None,
    }
}

/// Meaning of the members of a non-empty object, the closing brace
/// included.
pub open spec fn sparse_fields(s: Seq<char>, pos: int) -> Option<(Seq<(Seq<char>, JsonV)>, int)>
    decreases s.len() - pos, 3int,
    when 0 <= pos <= s.len()
{
    let p = skip_ws(s, pos);
    if !(pos <= p <= s.len()) {
        None  // never taken
    } else if p >= s.len() || s[p] != '"' {
        None
    } else {
        match sparse_text_chars(s, p + 1) {
            Some((k, ke)) => if !(p < ke && ke <= s.len()) {
                None
            } else {
                let ke2 = skip_ws(s, ke);
                if !(ke <= ke2 <= s.len() && ke2 < s.len() && s[ke2] == ':') {
                    None
                } else {
                    match sparse_value(s, ke2 + 1) {
                        Some((v, e)) => if !(ke2 + 1 < e && e <= s.len()) {
                            None
                        } else {
                            let e2 = skip_ws(s, e);
                            if !(e <= e2 <= s.len()) {
                                None  // never taken
                            } else if e2 < s.len() && s[e2] == ',' {
                                match sparse_fields(s, e2 + 1) {
                                    Some((fs, q)) => Some((seq![(k, v)] + fs, q)),
                                    None => None,
                                }
                            } else if e2 < s.len() && s[e2] == '}' {
                                Some((seq![(k, v)], e2 + 1))
                            } else {
                                None
                            }
                        },
                        None => None,
                    }
                }
            },
            None => None,
        }
    }
}

/// A value the executable types can hold: every number fits in an `i64`.
pub open spec fn wf_json(w: JsonV) -> bool
    decreases w,
{
    match w {
        JsonV::Null => true,
        JsonV::Bool(_) => true,
        JsonV::Int(i) => -0x8000000000000000 <= i <= 0x7fffffffffffffff,
        JsonV::Text(_) => true,
        JsonV::Arr(items) => forall|i: int| 0 <= i < items.len() ==> wf_json(#[trigger] items[i]),
        JsonV::Obj(fields) => forall|i: int|
            0 <= i < fields.len() ==> wf_json(#[trigger] fields[i].1),
    }
}

/// The value of every run-time JSON value is well formed.
pub proof fn lemma_view_wf(v: JsonValue)
    ensures
        wf_json(view_val(v)),
    decreases v,
{
    match v {
        JsonValue::Arr(items) => {
            assert forall|i: int| 0 <= i < view_items(items@).len() implies wf_json(
                #[trigger] view_items(items@)[i],
            ) by {
                lemma_view_items_index(items@, i);
                lemma_view_wf(items@[i]);
            }
        },
        JsonValue::Obj(fields) => {
            assert forall|i: int| 0 <= i < view_fields(fields@).len() implies wf_json(
                #[trigger] view_fields(fields@)[i].1,
            ) by {
                lemma_view_fields_index(fields@, i);
                lemma_view_wf(fields@[i].1);
            }
        },
        _ => {},
    }
}

/// The value sequence has the same length and values element by element.
pub proof fn lemma_view_items_index(s: Seq<JsonValue>, i: int)
    ensures
        view_items(s).len() == s.len(),
        0 <= i < s.len() ==> view_items(s)[i] == view_val(s[i]),
    decreases s.len(),
{
    if s.len() > 0 {
        lemma_view_items_index(s.drop_first(), i - 1);
    }
}

/// The member analogue of `lemma_view_items_index`.
pub proof fn lemma_view_fields_index(s: Seq<(String, JsonValue)>, i: int)
    ensures
        view_fields(s).len() == s.len(),
        0 <= i < s.len() ==> view_fields(s)[i] == (s[i].0@, view_val(s[i].1)),
    decreases s.len(),
{
    if s.len() > 0 {
        lemma_view_fields_index(s.drop_first(), i - 1);
    }
}


/// Ten to the power `k`.
pub open spec fn pow10(k: nat) -> nat
    decreases k,
{
    if k == 0 {
        1
    } else {
        10 * pow10((k - 1) as nat)
    }
}

/// Every character of a decimal rendering is a digit, and there is at
/// least one; a rendering below `pow10(k)` has at most `k` digits; a
/// rendering that starts with a zero is the single digit of zero.
pub proof fn lemma_dec_digits_shape(n: nat)
    ensures
        dec_digits(n).len() >= 1,
        forall|j: int| 0 <= j < dec_digits(n).len() ==> is_digit(#[trigger] dec_digits(n)[j]),
        dec_digits(n)[0] == '0' ==> n == 0,
        n == 0 ==> dec_digits(n).len() == 1,
    decreases n,
{
    if n < 10 {
    } else {
        lemma_dec_digits_shape(n / 10);
        assert(dec_digits(n) == dec_digits(n / 10) + seq![digit_char(n % 10)]);
        assert(dec_digits(n)[0] == dec_digits(n / 10)[0]);
        assert forall|j: int| 0 <= j < dec_digits(n).len() implies is_digit(
            #[trigger] dec_digits(n)[j],
        ) by {
            if j < dec_digits(n / 10).len() {
                assert(dec_digits(n)[j] == dec_digits(n / 10)[j]);
            } else {
                assert(dec_digits(n)[j] == digit_char(n % 10));
            }
        }
    }
}

/// A value below `pow10(k)` renders in at most `k` digits.
pub proof fn lemma_dec_digits_len(n: nat, k: nat)
    requires
        k >= 1,
        n < pow10(k),
    ensures
        dec_digits(n).len() <= k,
    decreases n,
{
    if n < 10 {
    } else {
        assert(pow10(k) == 10 * pow10((k - 1) as nat));
        assert(n / 10 < pow10((k - 1) as nat));
        assert(k >= 2) by {
            if k == 1 {
                assert(pow10(1nat) == 10);
            }
        }
        lemma_dec_digits_len(n / 10, (k - 1) as nat);
    }
}

/// The digit-run scanner stops exactly at the first non-digit.
pub proof fn lemma_digit_run(s: Seq<char>, pos: int, q: int)
    requires
        0 <= pos <= q <= s.len(),
        forall|j: int| pos <= j < q ==> is_digit(#[trigger] s[j]),
        q == s.len() || !is_digit(s[q]),
    ensures
        digit_run_end(s, pos) == q,
    decreases q - pos,
{
    if pos < q {
        lemma_digit_run(s, pos + 1, q);
    }
}

/// Reading back the decimal rendering of `n` yields `n`.
pub proof fn lemma_digits_val(s: Seq<char>, pos: int, n: nat)
    requires
        0 <= pos,
        pos + dec_digits(n).len() <= s.len(),
        s.subrange(pos, pos + dec_digits(n).len()) == dec_digits(n),
    ensures
        digits_val(s, pos, pos + dec_digits(n).len()) == n,
    decreases n,
{
    let dd = dec_digits(n);
    let end = pos + dd.len();
    if n < 10 {
        assert(s[pos] == dd[0]);
        assert(digit_val(digit_char(n)) == n);
        assert(digits_val(s, pos, end) == digits_val(s, pos, pos) * 10 + digit_val(s[pos]));
    } else {
        let dh = dec_digits(n / 10);
        assert(dd == dh + seq![digit_char(n % 10)]);
        assert(s.subrange(pos, pos + dh.len() as int) =~= dh) by {
            assert forall|j: int| 0 <= j < dh.len() implies s.subrange(
                pos,
                pos + dh.len() as int,
            )[j] == dh[j] by {
                assert(s[pos + j] == s.subrange(pos, end)[j]);
                assert(dd[j] == dh[j]);
            }
        }
        lemma_digits_val(s, pos, n / 10);
        assert(s[end - 1] == s.subrange(pos, end)[dd.len() - 1]);
        assert(dd[dd.len() - 1] == digit_char(n % 10));
        assert(digit_val(digit_char(n % 10)) == n % 10);
        assert(digits_val(s, pos, end) == digits_val(s, pos, end - 1) * 10 + digit_val(s[end - 1]));
        assert(digits_val(s, pos, end) == (n / 10) * 10 + n % 10);
    }
}

/// Whether position `e` can follow a number: the end of the text or a
/// character that is not a digit.
pub open spec fn no_digit_at(s: Seq<char>, e: int) -> bool {
    e == s.len() || !is_digit(s[e])
}

/// Reading back the decimal rendering of an integer that fits in an
/// `i64` yields exactly that integer.
pub proof fn lemma_parse_ser_number(s: Seq<char>, pos: int, i: int)
    requires
        -0x8000000000000000 <= i <= 0x7fffffffffffffff,
        0 <= pos,
        pos + ser_int(i).len() <= s.len(),
        s.subrange(pos, pos + ser_int(i).len()) == ser_int(i),
        no_digit_at(s, pos + ser_int(i).len()),
    ensures
        sparse_number(s, pos) == Some((JsonV::Int(i), pos + ser_int(i).len())),
{
    let si = ser_int(i);
    let end = pos + si.len();
    reveal_with_fuel(pow10, 21);
    assert(pow10(19) == 10000000000000000000) by {
        reveal_with_fuel(pow10, 21);
    }
    if i < 0 {
        let m = (-i) as nat;
        let dd = dec_digits(m);
        assert(si == seq!['-'] + dd);
        assert(s[pos] == si[0]);
        lemma_dec_digits_shape(m);
        assert(s.subrange(pos + 1, pos + 1 + dd.len() as int) =~= dd) by {
            assert forall|j: int| 0 <= j < dd.len() implies s.subrange(
                pos + 1,
                pos + 1 + dd.len() as int,
            )[j] == dd[j] by {
                assert(s[pos + 1 + j] == s.subrange(pos, end)[1 + j]);
            }
        }
        assert(forall|j: int| pos + 1 <= j < end ==> is_digit(#[trigger] s[j])) by {
            assert forall|j: int| pos + 1 <= j < end implies is_digit(#[trigger] s[j]) by {
                assert(s[j] == dd[j - (pos + 1)]);
            }
        }
        lemma_digit_run(s, pos + 1, end);
        assert(m < pow10(19));
        lemma_dec_digits_len(m, 19);
        assert(s[pos + 1] == dd[0]);
        assert(s[pos + 1] != '0') by {
            if dd[0] == '0' {
                assert(m == 0);
            }
        }
        lemma_digits_val(s, pos + 1, m);
    } else {
        let m = i as nat;
        let dd = dec_digits(m);
        assert(si == dd);
        assert(s.subrange(pos, pos + dd.len() as int) =~= dd);
        lemma_dec_digits_shape(m);
        assert(forall|j: int| pos <= j < end ==> is_digit(#[trigger] s[j])) by {
            assert forall|j: int| pos <= j < end implies is_digit(#[trigger] s[j]) by {
                assert(s[j] == dd[j - pos]);
            }
        }
        assert(s[pos] == dd[0]);
        assert(s[pos] != '-');
        lemma_digit_run(s, pos, end);
        assert(m < pow10(19));
        lemma_dec_digits_len(m, 19);
        if s[pos] == '0' {
            assert(m == 0);
            assert(dd.len() == 1);
        }
        lemma_digits_val(s, pos, m);
    }
}


/// Splitting a known subrange of `s` into two named parts.
pub proof fn lemma_split_at(s: Seq<char>, pos: int, a: Seq<char>, b: Seq<char>)
    requires
        0 <= pos,
        pos + a.len() + b.len() <= s.len(),
        s.subrange(pos, pos + a.len() + b.len()) == a + b,
    ensures
        s.subrange(pos, pos + a.len()) == a,
        s.subrange(pos + a.len(), pos + a.len() + b.len()) == b,
        forall|j: int| 0 <= j < a.len() ==> s[pos + j] == a[j],
        forall|j: int| 0 <= j < b.len() ==> s[pos + a.len() + j] == b[j],
{
    assert forall|j: int| 0 <= j < a.len() implies s[pos + j] == a[j] by {
        assert(s.subrange(pos, pos + a.len() + b.len())[j] == s[pos + j]);
        assert((a + b)[j] == a[j]);
    }
    assert forall|j: int| 0 <= j < b.len() implies s[pos + a.len() + j] == b[j] by {
        assert(s.subrange(pos, pos + a.len() + b.len())[a.len() + j] == s[pos + a.len() + j]);
        assert((a + b)[a.len() + j] == b[j]);
    }
    assert forall|j: int| 0 <= j < a.len() implies s.subrange(pos, pos + a.len())[j] == a[j] by {
        assert(s.subrange(pos, pos + a.len())[j] == s[pos + j]);
    }
    assert(s.subrange(pos, pos + a.len()) =~= a);
    assert forall|j: int|
        0 <= j < b.len() implies s.subrange(pos + a.len(), pos + a.len() + b.len())[j] == b[j] by {
        assert(s.subrange(pos + a.len(), pos + a.len() + b.len())[j] == s[pos + a.len() + j]);
    }
    assert(s.subrange(pos + a.len(), pos + a.len() + b.len()) =~= b);
}

/// The hexadecimal digit characters read back as their values.
pub proof fn lemma_hex_char(d: nat)
    requires
        d < 16,
    ensures
        is_hex(hex_char(d)),
        hex_val(hex_char(d)) == d,
{
}

/// Reading back an escaped string body up to its closing quote yields
/// the original characters.
pub proof fn lemma_parse_ser_text(s: Seq<char>, pos: int, t: Seq<char>)
    requires
        0 <= pos,
        pos + esc_seq(t).len() + 1 <= s.len(),
        s.subrange(pos, pos + esc_seq(t).len() + 1) == esc_seq(t) + seq!['"'],
    ensures
        sparse_text_chars(s, pos) == Some((t, pos + esc_seq(t).len() + 1)),
    decreases t.len(),
{
    let et = esc_seq(t);
    let end = pos + et.len() + 1;
    lemma_split_at(s, pos, et, seq!['"']);
    if t.len() == 0 {
        assert(s.subrange(pos + et.len(), pos + et.len() + 1)[0] == '"');
        assert(s[pos] == '"');
        assert(t =~= Seq::<char>::empty());
    } else {
        let c = t[0];
        let rest = t.drop_first();
        assert(et == esc_char(c) + esc_seq(rest));
        let tail = esc_seq(rest) + seq!['"'];
        assert(s.subrange(pos, pos + esc_char(c).len() + tail.len() as int) =~= esc_char(c)
            + tail) by {
            assert(esc_char(c) + tail =~= et + seq!['"']);
        }
        lemma_split_at(s, pos, esc_char(c), tail);
        let p2 = pos + esc_char(c).len();
        if c == '"' {
            assert(s.subrange(pos, pos + esc_char(c).len())[0] == '\\');
            assert(s.subrange(pos, pos + esc_char(c).len())[1] == '"');
            assert(s[pos] == '\\');
            assert(s[pos + 1] == '"');
            lemma_parse_ser_text(s, p2, rest);
            assert(seq![s[pos + 1]] + rest =~= t);
        } else if c == '\\' {
            assert(s.subrange(pos, pos + esc_char(c).len())[0] == '\\');
            assert(s.subrange(pos, pos + esc_char(c).len())[1] == '\\');
            assert(s[pos] == '\\');
            assert(s[pos + 1] == '\\');
            lemma_parse_ser_text(s, p2, rest);
            assert(seq![s[pos + 1]] + rest =~= t);
        } else if (c as u32) < 32 {
            let hi = ((c as u32) / 16) as nat;
            let lo = ((c as u32) % 16) as nat;
            assert(s.subrange(pos, pos + esc_char(c).len())[0] == '\\');
            assert(s.subrange(pos, pos + esc_char(c).len())[1] == 'u');
            assert(s.subrange(pos, pos + esc_char(c).len())[2] == '0');
            assert(s.subrange(pos, pos + esc_char(c).len())[3] == '0');
            assert(s.subrange(pos, pos + esc_char(c).len())[4] == hex_char(hi));
            assert(s.subrange(pos, pos + esc_char(c).len())[5] == hex_char(lo));
            assert(s[pos] == '\\');
            assert(s[pos + 1] == 'u');
            assert(s[pos + 2] == '0');
            assert(s[pos + 3] == '0');
            assert(s[pos + 4] == hex_char(hi));
            assert(s[pos + 5] == hex_char(lo));
            lemma_hex_char(hi);
            lemma_hex_char(lo);
            let v = hex_val(s[pos + 2]) * 4096 + hex_val(s[pos + 3]) * 256 + hex_val(s[pos + 4])
                * 16 + hex_val(s[pos + 5]);
            assert(hex_val(s[pos + 2]) == 0);
            assert(hex_val(s[pos + 3]) == 0);
            assert(v == c as u32);
            vstd::utf8::char_u32_cast(c, v as u32);
            lemma_parse_ser_text(s, p2, rest);
            assert(seq![(v as u32) as char] + rest =~= t);
        } else {
            assert(s.subrange(pos, pos + esc_char(c).len())[0] == c);
            assert(s[pos] == c);
            lemma_parse_ser_text(s, p2, rest);
            assert(seq![s[pos]] + rest =~= t);
        }
    }
}


/// The characters on which a value rendering can begin.
pub open spec fn value_start(c: char) -> bool {
    c == 'n' || c == 't' || c == 'f' || c == '"' || c == '[' || c == '{' || c == '-' || is_digit(c)
}

/// A rendering is never empty, starts with the character of its
/// variant, and never starts with a delimiter.
pub proof fn lemma_ser_value_first(w: JsonV)
    ensures
        ser_value(w).len() >= 1,
        value_start(ser_value(w)[0]),
        w is Null ==> ser_value(w)[0] == 'n',
        w is Bool ==> (ser_value(w)[0] == 't' || ser_value(w)[0] == 'f'),
        w is Int ==> (ser_value(w)[0] == '-' || is_digit(ser_value(w)[0])),
        w is Text ==> ser_value(w)[0] == '"',
        w is Arr ==> ser_value(w)[0] == '[',
        w is Obj ==> ser_value(w)[0] == '{',
{
    match w {
        JsonV::Int(i) => {
            if i < 0 {
                assert(ser_value(w)[0] == '-');
            } else {
                lemma_dec_digits_shape(i as nat);
                assert(ser_value(w)[0] == dec_digits(i as nat)[0]);
            }
        },
        _ => {},
    }
}

/// Reading back the rendering of a well-formed value yields the value
/// and stops just after it. A number must not be followed by a digit;
/// no other value places a demand on what follows.
#[verifier::rlimit(100)]
pub proof fn lemma_parse_ser_value(s: Seq<char>, pos: int, w: JsonV)
    requires
        wf_json(w),
        0 <= pos,
        pos + ser_value(w).len() <= s.len(),
        s.subrange(pos, pos + ser_value(w).len()) == ser_value(w),
        w is Int ==> no_digit_at(s, pos + ser_value(w).len()),
    ensures
        sparse_value(s, pos) == Some((w, pos + ser_value(w).len())),
    decreases w, 1int,
{
    let sv = ser_value(w);
    let end = pos + sv.len();
    lemma_ser_value_first(w);
    assert(s.subrange(pos, end)[0] == s[pos]);
    match w {
        JsonV::Null => {
            assert(s.subrange(pos, end)[1] == s[pos + 1]);
            assert(s.subrange(pos, end)[2] == s[pos + 2]);
            assert(s.subrange(pos, end)[3] == s[pos + 3]);
        },
        JsonV::Bool(b) => {
            assert(s.subrange(pos, end)[1] == s[pos + 1]);
            assert(s.subrange(pos, end)[2] == s[pos + 2]);
            assert(s.subrange(pos, end)[3] == s[pos + 3]);
            if !b {
                assert(s.subrange(pos, end)[4] == s[pos + 4]);
            }
        },
        JsonV::Int(i) => {
            lemma_parse_ser_number(s, pos, i);
        },
        JsonV::Text(t) => {
            let tail = esc_seq(t) + seq!['"'];
            assert(sv =~= seq!['"'] + tail);
            lemma_split_at(s, pos, seq!['"'], tail);
            lemma_parse_ser_text(s, pos + 1, t);
        },
        JsonV::Arr(items) => {
            if items.len() == 0 {
                assert(ser_items(items) =~= Seq::<char>::empty());
                assert(sv =~= seq!['[', ']']);
                assert(seq!['[', ']'][1int] == ']');
                assert(sv[1] == ']');
                assert(s.subrange(pos, end)[1] == s[pos + 1]);
                assert(s[pos + 1] == ']');
                assert(items =~= Seq::<JsonV>::empty());
                assert(JsonV::Arr(items) =~~= JsonV::Arr(Seq::<JsonV>::empty()));
                assert(w == JsonV::Arr(items));
            } else {
                let body = ser_items(items) + seq![']'];
                assert(sv =~= seq!['['] + body);
                lemma_split_at(s, pos, seq!['['], body);
                lemma_ser_value_first(items[0]);
                assert(ser_items(items)[0] == ser_value(items[0])[0]) by {
                    if items.len() > 1 {
                        assert(ser_items(items) == ser_value(items[0]) + seq![','] + ser_items(
                            items.drop_first(),
                        ));
                    }
                }
                assert(s.subrange(pos + 1, pos + 1 + body.len() as int)[0] == s[pos + 1]);
                assert(s[pos + 1] == ser_items(items)[0]) by {
                    assert(body[0] == ser_items(items)[0]);
                }
                assert(s[pos + 1] != ']');
                lemma_parse_ser_items(s, pos + 1, items);
            }
        },
        JsonV::Obj(fields) => {
            if fields.len() == 0 {
                assert(ser_fields(fields) =~= Seq::<char>::empty());
                assert(sv =~= seq!['{', '}']);
                assert(seq!['{', '}'][1int] == '}');
                assert(sv[1] == '}');
                assert(s.subrange(pos, end)[1] == s[pos + 1]);
                assert(s[pos + 1] == '}');
                assert(fields =~= Seq::<(Seq<char>, JsonV)>::empty());
                assert(JsonV::Obj(fields) =~~= JsonV::Obj(Seq::<(Seq<char>, JsonV)>::empty()));
                assert(w == JsonV::Obj(fields));
            } else {
                let body = ser_fields(fields) + seq!['}'];
                assert(sv =~= seq!['{'] + body);
                lemma_split_at(s, pos, seq!['{'], body);
                assert(ser_fields(fields)[0] == '"') by {
                    let k0 = fields[0].0;
                    if fields.len() > 1 {
                        assert(ser_fields(fields) == ser_text(k0) + seq![':'] + ser_value(
                            fields[0].1,
                        ) + seq![','] + ser_fields(fields.drop_first()));
                    }
                    assert(ser_text(k0)[0] == '"');
                }
                assert(s.subrange(pos + 1, pos + 1 + body.len() as int)[0] == s[pos + 1]);
                assert(s[pos + 1] == ser_fields(fields)[0]) by {
                    assert(body[0] == ser_fields(fields)[0]);
                }
                assert(s[pos + 1] != '}');
                lemma_parse_ser_fields(s, pos + 1, fields);
            }
        },
    }
}

/// Reading back the rendering of a non-empty array body (closing
/// bracket included) yields the elements.
pub proof fn lemma_parse_ser_items(s: Seq<char>, pos: int, items: Seq<JsonV>)
    requires
        items.len() >= 1,
        forall|i: int| 0 <= i < items.len() ==> wf_json(#[trigger] items[i]),
        0 <= pos,
        pos + ser_items(items).len() + 1 <= s.len(),
        s.subrange(pos, pos + ser_items(items).len() + 1) == ser_items(items) + seq![']'],
    ensures
        sparse_items(s, pos) == Some((items, pos + ser_items(items).len() + 1)),
    decreases items, 0int,
{
    let w0 = items[0];
    let sv0 = ser_value(w0);
    lemma_ser_value_first(w0);
    let e = pos + sv0.len();
    if items.len() == 1 {
        assert(ser_items(items) == sv0);
        lemma_split_at(s, pos, sv0, seq![']']);
        assert(s.subrange(e, e + 1)[0] == s[e]);
        assert(s[e] == ']');
        lemma_parse_ser_value(s, pos, w0);
        assert(seq![w0] =~= items);
    } else {
        let rest = items.drop_first();
        assert(rest.len() >= 1);
        assert(forall|i: int| 0 <= i < rest.len() ==> wf_json(#[trigger] rest[i])) by {
            assert forall|i: int| 0 <= i < rest.len() implies wf_json(#[trigger] rest[i]) by {
                assert(rest[i] == items[i + 1]);
            }
        }
        let tail = seq![','] + ser_items(rest) + seq![']'];
        assert(ser_items(items) == sv0 + seq![','] + ser_items(rest));
        assert(ser_items(items) + seq![']'] =~= sv0 + tail);
        assert(s.subrange(pos, pos + sv0.len() + tail.len() as int) =~= sv0 + tail);
        lemma_split_at(s, pos, sv0, tail);
        assert(s.subrange(e, e + tail.len() as int)[0] == s[e]);
        assert(s[e] == ',') by {
            assert(tail[0] == ',');
        }
        lemma_parse_ser_value(s, pos, w0);
        let tail2 = ser_items(rest) + seq![']'];
        assert(s.subrange(e, e + 1 + tail2.len() as int) =~= seq![','] + tail2) by {
            assert(seq![','] + tail2 =~= tail);
        }
        lemma_split_at(s, e, seq![','], tail2);
        lemma_parse_ser_items(s, e + 1, rest);
        assert(seq![w0] + rest =~= items);
    }
}

/// Reading back the rendering of a non-empty object body (closing
/// brace included) yields the members.
pub proof fn lemma_parse_ser_fields(s: Seq<char>, pos: int, fields: Seq<(Seq<char>, JsonV)>)
    requires
        fields.len() >= 1,
        forall|i: int| 0 <= i < fields.len() ==> wf_json(#[trigger] fields[i].1),
        0 <= pos,
        pos + ser_fields(fields).len() + 1 <= s.len(),
        s.subrange(pos, pos + ser_fields(fields).len() + 1) == ser_fields(fields) + seq!['}'],
    ensures
        sparse_fields(s, pos) == Some((fields, pos + ser_fields(fields).len() + 1)),
    decreases fields, 0int,
{
    let k0 = fields[0].0;
    let w0 = fields[0].1;
    let st0 = ser_text(k0);
    let sv0 = ser_value(w0);
    lemma_ser_value_first(w0);
    let ke = pos + st0.len();
    let e = ke + 1 + sv0.len();
    if fields.len() == 1 {
        assert(ser_fields(fields) == st0 + seq![':'] + sv0);
        let tail = seq![':'] + sv0 + seq!['}'];
        assert(ser_fields(fields) + seq!['}'] =~= st0 + tail);
        assert(s.subrange(pos, pos + st0.len() + tail.len() as int) =~= st0 + tail);
        lemma_split_at(s, pos, st0, tail);
        assert(s.subrange(ke, ke + tail.len() as int)[0] == s[ke]);
        assert(s[ke] == ':') by {
            assert(tail[0] == ':');
        }
        let tail2 = sv0 + seq!['}'];
        assert(s.subrange(ke, ke + 1 + tail2.len() as int) =~= seq![':'] + tail2) by {
            assert(seq![':'] + tail2 =~= tail);
        }
        lemma_split_at(s, ke, seq![':'], tail2);
        lemma_split_at(s, ke + 1, sv0, seq!['}']);
        assert(s.subrange(e, e + 1)[0] == s[e]);
        assert(s[e] == '}');
        // the key text
        assert(st0 =~= seq!['"'] + (esc_seq(k0) + seq!['"']));
        assert(s.subrange(pos, pos + 1 + (esc_seq(k0) + seq!['"']).len() as int) =~= seq!['"'] + (
        esc_seq(k0) + seq!['"']));
        lemma_split_at(s, pos, seq!['"'], esc_seq(k0) + seq!['"']);
        assert(s.subrange(pos, pos + 1)[0] == s[pos]);
        assert(s[pos] == '"');
        lemma_parse_ser_text(s, pos + 1, k0);
        lemma_parse_ser_value(s, ke + 1, w0);
        assert(seq![(k0, w0)] =~= fields);
    } else {
        let rest = fields.drop_first();
        assert(rest.len() >= 1);
        assert(forall|i: int| 0 <= i < rest.len() ==> wf_json(#[trigger] rest[i].1)) by {
            assert forall|i: int| 0 <= i < rest.len() implies wf_json(#[trigger] rest[i].1) by {
                assert(rest[i] == fields[i + 1]);
            }
        }
        assert(ser_fields(fields) == st0 + seq![':'] + sv0 + seq![','] + ser_fields(rest));
        let tail = seq![':'] + sv0 + seq![','] + ser_fields(rest) + seq!['}'];
        assert(ser_fields(fields) + seq!['}'] =~= st0 + tail);
        assert(s.subrange(pos, pos + st0.len() + tail.len() as int) =~= st0 + tail);
        lemma_split_at(s, pos, st0, tail);
        assert(s.subrange(ke, ke + tail.len() as int)[0] == s[ke]);
        assert(s[ke] == ':') by {
            assert(tail[0] == ':');
        }
        let tail2 = sv0 + (seq![','] + ser_fields(rest) + seq!['}']);
        assert(s.subrange(ke, ke + 1 + tail2.len() as int) =~= seq![':'] + tail2) by {
            assert(seq![':'] + tail2 =~= tail);
        }
        lemma_split_at(s, ke, seq![':'], tail2);
        let tail3 = seq![','] + ser_fields(rest) + seq!['}'];
        assert(s.subrange(ke + 1, ke + 1 + sv0.len() + tail3.len() as int) =~= sv0 + tail3);
        lemma_split_at(s, ke + 1, sv0, tail3);
        assert(s.subrange(e, e + tail3.len() as int)[0] == s[e]);
        assert(s[e] == ',') by {
            assert(tail3[0] == ',');
        }
        // the key text
        assert(st0 =~= seq!['"'] + (esc_seq(k0) + seq!['"']));
        assert(s.subrange(pos, pos + 1 + (esc_seq(k0) + seq!['"']).len() as int) =~= seq!['"'] + (
        esc_seq(k0) + seq!['"']));
        lemma_split_at(s, pos, seq!['"'], esc_seq(k0) + seq!['"']);
        assert(s.subrange(pos, pos + 1)[0] == s[pos]);
        assert(s[pos] == '"');
        lemma_parse_ser_text(s, pos + 1, k0);
        lemma_parse_ser_value(s, ke + 1, w0);
        let tail4 = ser_fields(rest) + seq!['}'];
        assert(s.subrange(e, e + 1 + tail4.len() as int) =~= seq![','] + tail4) by {
            assert(seq![','] + tail4 =~= tail3);
        }
        lemma_split_at(s, e, seq![','], tail4);
        lemma_parse_ser_fields(s, e + 1, rest);
        assert(seq![(k0, w0)] + rest =~= fields);
    }
}

/// Law: the canonical text of a well-formed value parses back to
/// exactly that value, consuming the whole text.
pub proof fn lemma_json_round_trip(w: JsonV)
    requires
        wf_json(w),
    ensures
        sparse_value(ser_value(w), 0) == Some((w, ser_value(w).len() as int)),
{
    let sv = ser_value(w);
    assert(sv.subrange(0, sv.len() as int) =~= sv);
    lemma_parse_ser_value(sv, 0, w);
}



/// The value of the digits `s[pos..end]` stays below `pow10(end - pos)`.
pub proof fn lemma_digits_val_bound(s: Seq<char>, pos: int, end: int)
    requires
        pos <= end,
    ensures
        0 <= digits_val(s, pos, end) < pow10((end - pos) as nat),
    decreases end - pos,
{
    if pos >= end {
    } else {
        lemma_digits_val_bound(s, pos, end - 1);
        assert(digit_val(s[end - 1]) <= 9);
        assert(pow10((end - pos) as nat) == 10 * pow10((end - pos - 1) as nat));
    }
}

/// The numeric value of a digit character.
fn digit_of(c: char) -> (d: u64)
    ensures
        d == digit_val(c),
        d <= 9,
{
    if c == '1' { 1 }
    else if c == '2' { 2 }
    else if c == '3' { 3 }
    else if c == '4' { 4 }
    else if c == '5' { 5 }
    else if c == '6' { 6 }
    else if c == '7' { 7 }
    else if c == '8' { 8 }
    else if c == '9' { 9 }
    else { 0 }
}

/// Whether `c` is a decimal digit.
fn is_digit_char(c: char) -> (r: bool)
    ensures
        r == is_digit(c),
{
    c == '0' || c == '1' || c == '2' || c == '3' || c == '4' || c == '5' || c == '6' || c == '7'
        || c == '8' || c == '9'
}

/// Read a number starting at `pos`, as `sparse_number` describes it.
#[verifier::loop_isolation(false)]
#[verifier::rlimit(80)]
fn parse_number_at(s: &str, pos: usize) -> (r: Option<(i64, usize)>)
    requires
        pos < s@.len(),
        s@[pos as int] == '-' || is_digit(s@[pos as int]),
    ensures
        r matches Some((i, e)) ==> sparse_number(s@, pos as int) == Some((JsonV::Int(i as int), e as int))
            && pos < e <= s@.len(),
        r is None ==> sparse_number(s@, pos as int) is None,
{
    let n = s.unicode_len();
    let neg = s.get_char(pos) == '-';
    let start: usize = if neg { pos + 1 } else { pos };
    // find the end of the digit run
    let mut e: usize = start;
    while e < n && is_digit_char(s.get_char(e))
        invariant
            start <= e <= n,
            forall|j: int| start <= j < e ==> is_digit(#[trigger] s@[j]),
        decreases n - e,
    {
        e = e + 1;
    }
    proof {
        lemma_digit_run(s@, start as int, e as int);
    }
    if e == start || e - start > 19 {
        return None;
    }
    if s.get_char(start) == '0' && (neg || e > start + 1) {
        return None;
    }
    proof {
        reveal_with_fuel(pow10, 21);
        assert(pow10(19) == 10000000000000000000);
    }
    // accumulate the value
    let mut acc: u64 = 0;
    let mut i: usize = start;
    while i < e
        invariant
            start <= i <= e,
            e - start <= 19,
            acc == digits_val(s@, start as int, i as int),
            acc < pow10((i - start) as nat),
        decreases e - i,
    {
        proof {
            assert(pow10((i - start) as nat) <= pow10(18)) by {
                lemma_pow10_le((i - start) as nat, 18);
            }
            assert(digit_val(s@[i as int]) <= 9);
        }
        let d = digit_of(s.get_char(i));
        acc = acc * 10 + d;
        proof {
            assert(pow10(((i + 1) - start) as nat) == 10 * pow10((i - start) as nat));
        }
        i = i + 1;
    }
    if neg {
        if acc > 0x8000000000000000 {
            None
        } else if acc == 0 {
            proof {
                assert(s@[start as int] == '0') by {
                    lemma_digits_val_zero(s@, start as int, e as int);
                }
            }
            None
        } else if acc == 0x8000000000000000 {
            Some((i64::MIN, e))
        } else {
            Some((-(acc as i64), e))
        }
    } else {
        if acc > 0x7fffffffffffffff {
            None
        } else {
            Some((acc as i64, e))
        }
    }
}

/// `pow10` grows with its exponent.
pub proof fn lemma_pow10_le(a: nat, b: nat)
    requires
        a <= b,
    ensures
        pow10(a) <= pow10(b),
    decreases b,
{
    if a < b {
        lemma_pow10_le(a, (b - 1) as nat);
        assert(pow10(b) == 10 * pow10((b - 1) as nat));
    }
}

/// A digit run with value zero and no leading zero is the single digit
/// zero.
pub proof fn lemma_digits_val_zero(s: Seq<char>, pos: int, end: int)
    requires
        pos < end,
        forall|j: int| pos <= j < end ==> is_digit(#[trigger] s[j]),
        digits_val(s, pos, end) == 0,
    ensures
        s[pos] == '0',
    decreases end - pos,
{
    lemma_digits_val_bound(s, pos, end - 1);
    assert(digit_val(s[end - 1]) >= 0);
    if pos < end - 1 {
        lemma_digits_val_zero(s, pos, end - 1);
    } else {
        assert(digit_val(s[pos]) == 0);
    }
}

/// Relies on char::from_u32: the character with this scalar value,
/// present exactly when the value is one — below the surrogate range
/// or between it and the last scalar.
#[verifier::external_body]
fn char_from_u32(v: u32) -> (r: Option<char>)
    ensures
        r is Some <==> (v < 0xD800 || (0xE000 <= v && v <= 0x10FFFF)),
        r matches Some(c) ==> c as u32 == v,
{
    char::from_u32(v)
}

/// The numeric value of a hexadecimal digit.
fn hex_of(c: char) -> (d: u32)
    ensures
        d == hex_val(c),
        d <= 15,
{
    if c == '1' { 1 }
    else if c == '2' { 2 }
    else if c == '3' { 3 }
    else if c == '4' { 4 }
    else if c == '5' { 5 }
    else if c == '6' { 6 }
    else if c == '7' { 7 }
    else if c == '8' { 8 }
    else if c == '9' { 9 }
    else if c == 'a' || c == 'A' { 10 }
    else if c == 'b' || c == 'B' { 11 }
    else if c == 'c' || c == 'C' { 12 }
    else if c == 'd' || c == 'D' { 13 }
    else if c == 'e' || c == 'E' { 14 }
    else if c == 'f' || c == 'F' { 15 }
    else { 0 }
}

/// Whether `c` is a hexadecimal digit, either case.
fn is_hex_char(c: char) -> (r: bool)
    ensures
        r == is_hex(c),
{
    is_digit_char(c) || c == 'a' || c == 'b' || c == 'c' || c == 'd' || c == 'e' || c == 'f' || c
        == 'A' || c == 'B' || c == 'C' || c == 'D' || c == 'E' || c == 'F'
}

/// Read a string body up to and including its closing quote, as
/// `sparse_text_chars` describes it.
fn parse_text_at(s: &str, pos: usize) -> (r: Option<(String, usize)>)
    requires
        pos <= s@.len(),
    ensures
        r matches Some((t, e)) ==> sparse_text_chars(s@, pos as int) == Some((t@, e as int)) && pos
            < e <= s@.len(),
        r is None ==> sparse_text_chars(s@, pos as int) is None,
    decreases s@.len() - pos,
{
    let n = s.unicode_len();
    if pos >= n {
        return None;
    }
    let c = s.get_char(pos);
    if c == '"' {
        let t = String::new();
        proof {
            assert(t@ =~= Seq::<char>::empty());
        }
        Some((t, pos + 1))
    } else if c == '\\' {
        if pos + 1 >= n {
            return None;
        }
        let c2 = s.get_char(pos + 1);
        if c2 == '"' || c2 == '\\' || c2 == '/' {
            match parse_text_at(s, pos + 2) {
                Some((rest, e)) => {
                    let mut t = String::new();
                    push_char(&mut t, c2);
                    t.append(rest.as_str());
                    proof {
                        assert(t@ =~= seq![c2] + rest@);
                    }
                    Some((t, e))
                },
                None => None,
            }
        } else if c2 == 'b' || c2 == 'f' || c2 == 'n' || c2 == 'r' || c2 == 't' {
            let mapped: char = if c2 == 'b' { '\u{8}' }
            else if c2 == 'f' { '\u{c}' }
            else if c2 == 'n' { '\n' }
            else if c2 == 'r' { '\r' }
            else { '\t' };
            match parse_text_at(s, pos + 2) {
                Some((rest, e)) => {
                    let mut t = String::new();
                    push_char(&mut t, mapped);
                    t.append(rest.as_str());
                    proof {
                        assert(t@ =~= seq![short_escape(c2)] + rest@);
                    }
                    Some((t, e))
                },
                None => None,
            }
        } else if c2 == 'u' {
            if !(n - pos >= 6 && is_hex_char(s.get_char(pos + 2)) && is_hex_char(
                s.get_char(pos + 3),
            ) && is_hex_char(s.get_char(pos + 4)) && is_hex_char(s.get_char(pos + 5))) {
                return None;
            }
            let v: u32 = hex_of(s.get_char(pos + 2)) * 4096 + hex_of(s.get_char(pos + 3)) * 256
                + hex_of(s.get_char(pos + 4)) * 16 + hex_of(s.get_char(pos + 5));
            if 0xD800 <= v && v < 0xE000 {
                return None;
            }
            let mapped: char = match char_from_u32(v) {
                Some(mapped) => mapped,
                None => {
                    proof {
                        assert(false);
                    }
                    return None;
                },
            };
            match parse_text_at(s, pos + 6) {
                Some((rest, e)) => {
                    let mut t = String::new();
                    push_char(&mut t, mapped);
                    t.append(rest.as_str());
                    proof {
                        vstd::utf8::char_u32_cast(mapped, v);
                        assert(t@ =~= seq![(v as u32) as char] + rest@);
                    }
                    Some((t, e))
                },
                None => None,
            }
        } else {
            None
        }
    } else {
        match parse_text_at(s, pos + 1) {
            Some((rest, e)) => {
                let mut t = String::new();
                push_char(&mut t, c);
                t.append(rest.as_str());
                proof {
                    assert(t@ =~= seq![c] + rest@);
                }
                Some((t, e))
            },
            None => None,
        }
    }
}

/// The first position at or after `pos` without whitespace.
fn ws_end(s: &str, pos: usize) -> (r: usize)
    requires
        pos <= s@.len(),
    ensures
        r == skip_ws(s@, pos as int),
        pos <= r <= s@.len(),
    decreases s@.len() - pos,
{
    let n = s.unicode_len();
    let mut i: usize = pos;
    loop
        invariant
            pos <= i <= n,
            n == s@.len(),
            skip_ws(s@, pos as int) == skip_ws(s@, i as int),
        ensures
            i == skip_ws(s@, pos as int),
            pos <= i <= n,
        decreases n - i,
    {
        if i >= n {
            break ;
        }
        let c = s.get_char(i);
        if !(c == ' ' || c == '\t' || c == '\n' || c == '\r') {
            break ;
        }
        i = i + 1;
    }
    i
}

/// Expect the exact characters of a keyword at `pos`.
fn expect_keyword(s: &str, pos: usize, k0: char, k1: char, k2: char, k3: char) -> (r: bool)
    requires
        pos < s@.len(),
    ensures
        r == (pos + 4 <= s@.len() && s@[pos as int + 1] == k1 && s@[pos as int + 2] == k2 && s@[
            pos as int + 3
        ] == k3),
{
    let n = s.unicode_len();
    n - pos >= 4 && s.get_char(pos + 1) == k1 && s.get_char(pos + 2) == k2 && s.get_char(pos + 3)
        == k3
}

/// Read one JSON value starting at `pos`, as `sparse_value` describes
/// it.
#[verifier::loop_isolation(false)]
fn parse_value_at(s: &str, pos: usize) -> (r: Option<(JsonValue, usize)>)
    requires
        pos <= s@.len(),
    ensures
        r matches Some((v, e)) ==> sparse_value(s@, pos as int) == Some((v@, e as int)) && pos < e
            <= s@.len(),
        r is None ==> sparse_value(s@, pos as int) is None,
    decreases s@.len() - pos, 2nat,
{
    let n = s.unicode_len();
    let p = ws_end(s, pos);
    if p >= n {
        return None;
    }
    let c = s.get_char(p);
    if c == 'n' {
        if expect_keyword(s, p, 'n', 'u', 'l', 'l') {
            Some((JsonValue::Null, p + 4))
        } else {
            None
        }
    } else if c == 't' {
        if expect_keyword(s, p, 't', 'r', 'u', 'e') {
            Some((JsonValue::Bool(true), p + 4))
        } else {
            None
        }
    } else if c == 'f' {
        if n - p >= 5 && s.get_char(p + 1) == 'a' && s.get_char(p + 2) == 'l' && s.get_char(p + 3)
            == 's' && s.get_char(p + 4) == 'e' {
            Some((JsonValue::Bool(false), p + 5))
        } else {
            None
        }
    } else if c == '"' {
        match parse_text_at(s, p + 1) {
            Some((t, e)) => Some((JsonValue::Text(t), e)),
            None => None,
        }
    } else if c == '[' {
        let p2 = ws_end(s, p + 1);
        if p2 < n && s.get_char(p2) == ']' {
            Some((JsonValue::Arr(Vec::new()), p2 + 1))
        } else {
            match parse_items_at(s, p + 1) {
                Some((vs, e)) => Some((JsonValue::Arr(vs), e)),
                None => None,
            }
        }
    } else if c == '{' {
        let p2 = ws_end(s, p + 1);
        if p2 < n && s.get_char(p2) == '}' {
            Some((JsonValue::Obj(Vec::new()), p2 + 1))
        } else {
            match parse_fields_at(s, p + 1) {
                Some((fs, e)) => Some((JsonValue::Obj(fs), e)),
                None => None,
            }
        }
    } else if c == '-' || is_digit_char(c) {
        match parse_number_at(s, p) {
            Some((i, e)) => Some((JsonValue::Int(i), e)),
            None => None,
        }
    } else {
        None
    }
}

/// Read the elements of a non-empty array, the closing bracket
/// included, as `sparse_items` describes it.
fn parse_items_at(s: &str, pos: usize) -> (r: Option<(Vec<JsonValue>, usize)>)
    requires
        pos <= s@.len(),
    ensures
        r matches Some((vs, e)) ==> sparse_items(s@, pos as int) == Some((
            view_items(vs@),
            e as int,
        )) && pos < e <= s@.len(),
        r is None ==> sparse_items(s@, pos as int) is None,
    decreases s@.len() - pos, 3nat,
{
    let n = s.unicode_len();
    match parse_value_at(s, pos) {
        Some((v, e)) => {
            let e2 = ws_end(s, e);
            if e2 < n && s.get_char(e2) == ',' {
                match parse_items_at(s, e2 + 1) {
                    Some((rest, e2)) => {
                        let mut vs = rest;
                        vs.insert(0, v);
                        proof {
                            assert(vs@.drop_first() =~= rest@);
                            assert(vs@[0] == v);
                            assert forall|j: int| 0 <= j < vs@.len() implies view_items(vs@)[j] == (
                            seq![v@] + view_items(vs@.drop_first()))[j] by {
                                lemma_view_items_index(vs@, j);
                                if j > 0 {
                                    lemma_view_items_index(vs@.drop_first(), j - 1);
                                }
                            }
                            lemma_view_items_index(vs@, 0);
                            lemma_view_items_index(vs@.drop_first(), -1);
                            assert(view_items(vs@) =~= seq![v@] + view_items(vs@.drop_first()));
                        }
                        Some((vs, e2))
                    },
                    None => None,
                }
            } else if e2 < n && s.get_char(e2) == ']' {
                let mut vs: Vec<JsonValue> = Vec::new();
                vs.push(v);
                proof {
                    lemma_view_items_index(vs@, 0);
                    assert(view_items(vs@) =~= seq![v@]);
                }
                Some((vs, e2 + 1))
            } else {
                None
            }
        },
        None => None,
    }
}

/// Read the members of a non-empty object, the closing brace included,
/// as `sparse_fields` describes it.
fn parse_fields_at(s: &str, pos: usize) -> (r: Option<(Vec<(String, JsonValue)>, usize)>)
    requires
        pos <= s@.len(),
    ensures
        r matches Some((fs, e)) ==> sparse_fields(s@, pos as int) == Some((
            view_fields(fs@),
            e as int,
        )) && pos < e <= s@.len(),
        r is None ==> sparse_fields(s@, pos as int) is None,
    decreases s@.len() - pos, 3nat,
{
    let n = s.unicode_len();
    let p = ws_end(s, pos);
    if p >= n || s.get_char(p) != '"' {
        return None;
    }
    match parse_text_at(s, p + 1) {
        Some((k, ke)) => {
            let ke2 = ws_end(s, ke);
            if !(ke2 < n && s.get_char(ke2) == ':') {
                return None;
            }
            match parse_value_at(s, ke2 + 1) {
                Some((v, e)) => {
                    let e2 = ws_end(s, e);
                    if e2 < n && s.get_char(e2) == ',' {
                        match parse_fields_at(s, e2 + 1) {
                            Some((rest, e2)) => {
                                let mut fs = rest;
                                fs.insert(0, (k, v));
                                proof {
                                    assert(fs@.drop_first() =~= rest@);
                                    assert(fs@[0] == (k, v));
                                    assert forall|j: int|
                                        0 <= j < fs@.len() implies view_fields(fs@)[j] == (seq![
                                        (fs@[0].0@, fs@[0].1@),
                                    ] + view_fields(fs@.drop_first()))[j] by {
                                        lemma_view_fields_index(fs@, j);
                                        if j > 0 {
                                            lemma_view_fields_index(fs@.drop_first(), j - 1);
                                        }
                                    }
                                    lemma_view_fields_index(fs@, 0);
                                    lemma_view_fields_index(fs@.drop_first(), -1);
                                    assert(view_fields(fs@) =~= seq![(fs@[0].0@, fs@[0].1@)]
                                        + view_fields(fs@.drop_first()));
                                    assert(seq![(fs@[0].0@, fs@[0].1@)] =~= seq![(k@, v@)]);
                                }
                                Some((fs, e2))
                            },
                            None => None,
                        }
                    } else if e2 < n && s.get_char(e2) == '}' {
                        let mut fs: Vec<(String, JsonValue)> = Vec::new();
                        fs.push((k, v));
                        proof {
                            lemma_view_fields_index(fs@, 0);
                            assert(view_fields(fs@) =~= seq![(fs@[0].0@, fs@[0].1@)]);
                        }
                        Some((fs, e2 + 1))
                    } else {
                        None
                    }
                },
                None => None,
            }
        },
        None => None,
    }
}

/// Read a whole JSON text: one value, surrounded by nothing but
/// whitespace.
pub fn from_text(s: &str) -> (r: Option<JsonValue>)
    ensures
        r matches Some(v) ==> (sparse_value(s@, 0) matches Some(p) && p.0 == v@ && skip_ws(
            s@,
            p.1,
        ) == s@.len()),
        r is None ==> (sparse_value(s@, 0) matches Some(p) ==> skip_ws(s@, p.1) != s@.len()),
{
    let n = s.unicode_len();
    match parse_value_at(s, 0) {
        Some((v, e)) => {
            if ws_end(s, e) == n {
                Some(v)
            } else {
                None
            }
        },
        None => None,
    }
}


/// A structural copy of a JSON value, equal in meaning to the source.
#[verifier::loop_isolation(false)]
pub fn clone_value(v: &JsonValue) -> (r: JsonValue)
    ensures
        r@ == v@,
    decreases v,
{
    match v {
        JsonValue::Null => JsonValue::Null,
        JsonValue::Bool(b) => JsonValue::Bool(*b),
        JsonValue::Int(i) => JsonValue::Int(*i),
        JsonValue::Text(s) => JsonValue::Text(s.clone()),
        JsonValue::Arr(items) => {
            let mut out: Vec<JsonValue> = Vec::new();
            let mut idx: usize = 0;
            while idx < items.len()
                invariant
                    idx <= items@.len(),
                    out@.len() == idx,
                    forall|j: int| 0 <= j < idx ==> #[trigger] out@[j]@ == items@[j]@,
                decreases items@.len() - idx,
            {
                proof {
                    assert((*v)->Arr_0 == *items);
                    assert(decreases_to!(*v => (*v)->Arr_0));
                    assert(decreases_to!(*items => items@));
                    assert(decreases_to!(items@ => items@[idx as int]));
                }
                let c = clone_value(&items[idx]);
                out.push(c);
                idx = idx + 1;
            }
            proof {
                assert forall|j: int| 0 <= j < out@.len() implies view_items(out@)[j] == view_items(
                    items@,
                )[j] by {
                    lemma_view_items_index(out@, j);
                    lemma_view_items_index(items@, j);
                    assert(out@[j]@ == items@[j]@);
                }
                lemma_view_items_index(out@, -1);
                lemma_view_items_index(items@, -1);
                assert(view_items(out@) =~= view_items(items@));
            }
            JsonValue::Arr(out)
        },
        JsonValue::Obj(fields) => {
            let mut out: Vec<(String, JsonValue)> = Vec::new();
            let mut idx: usize = 0;
            while idx < fields.len()
                invariant
                    idx <= fields@.len(),
                    out@.len() == idx,
                    forall|j: int| 0 <= j < idx ==> #[trigger] out@[j].0@ == fields@[j].0@
                        && out@[j].1@ == fields@[j].1@,
                decreases fields@.len() - idx,
            {
                proof {
                    assert((*v)->Obj_0 == *fields);
                    assert(decreases_to!(*v => (*v)->Obj_0));
                    assert(decreases_to!(*fields => fields@));
                    assert(decreases_to!(fields@ => fields@[idx as int]));
                    assert(decreases_to!(fields@[idx as int] => fields@[idx as int].1));
                }
                let k = fields[idx].0.clone();
                let c = clone_value(&fields[idx].1);
                out.push((k, c));
                idx = idx + 1;
            }
            proof {
                assert forall|j: int| 0 <= j < out@.len() implies view_fields(out@)[j]
                    == view_fields(fields@)[j] by {
                    lemma_view_fields_index(out@, j);
                    lemma_view_fields_index(fields@, j);
                    assert(out@[j].0@ == fields@[j].0@ && out@[j].1@ == fields@[j].1@);
                }
                lemma_view_fields_index(out@, -1);
                lemma_view_fields_index(fields@, -1);
                assert(view_fields(out@) =~= view_fields(fields@));
            }
            JsonValue::Obj(out)
        },
    }
}


/// Whether two character strings hold the same characters.
#[verifier::loop_isolation(false)]
pub fn str_eq(a: &str, b: &str) -> (r: bool)
    ensures
        r == (a@ == b@),
{
    let na = a.unicode_len();
    let nb = b.unicode_len();
    if na != nb {
        proof {
            assert(a@ != b@);
        }
        return false;
    }
    let mut i: usize = 0;
    while i < na
        invariant
            na == a@.len() && na == b@.len(),
            i <= na,
            forall|j: int| 0 <= j < i ==> a@[j] == b@[j],
        decreases na - i,
    {
        if a.get_char(i) != b.get_char(i) {
            return false;
        }
        i = i + 1;
    }
    proof {
        assert(a@ =~= b@);
    }
    true
}

} // verus!
