//! The serialization boundary: the final collection written as one JSON
//! array of records with the fields `priority`, `body`, `assignee`,
//! `context`, `file` and `line`, and a decoder for exactly that shape. The
//! encoder and decoder are both specified character by character, and
//! decoding an encoded collection provably yields the collection back.

use vstd::prelude::*;
use vstd::arithmetic::div_mod::lemma_fundamental_div_mod;

use crate::text::{all_digits, dec_val, digit_val, is_digit};
use crate::types::{ItemView, ToDoItem, item_views};

verus! {

/// The decimal digit character for a value below ten.
pub open spec fn digit_char(v: int) -> char {
    if v == 0 {
        '0'
    } else if v == 1 {
        '1'
    } else if v == 2 {
        '2'
    } else if v == 3 {
        '3'
    } else if v == 4 {
        '4'
    } else if v == 5 {
        '5'
    } else if v == 6 {
        '6'
    } else if v == 7 {
        '7'
    } else if v == 8 {
        '8'
    } else {
        '9'
    }
}

/// The lower-case hex digit character for a value below sixteen.
pub open spec fn hex_digit(v: int) -> char {
    if v < 10 {
        digit_char(v)
    } else if v == 10 {
        'a'
    } else if v == 11 {
        'b'
    } else if v == 12 {
        'c'
    } else if v == 13 {
        'd'
    } else if v == 14 {
        'e'
    } else {
        'f'
    }
}

/// The value of a lower-case hex digit character, or -1 for any other
/// character.
pub open spec fn hex_val(c: char) -> int {
    if is_digit(c) {
        digit_val(c) as int
    } else if c == 'a' {
        10
    } else if c == 'b' {
        11
    } else if c == 'c' {
        12
    } else if c == 'd' {
        13
    } else if c == 'e' {
        14
    } else if c == 'f' {
        15
    } else {
        -1
    }
}

/// The character with a code below 32, by its code.
pub open spec fn low_char(v: int) -> char {
    if v == 0 {
        '\x00'
    } else if v == 1 {
        '\x01'
    } else if v == 2 {
        '\x02'
    } else if v == 3 {
        '\x03'
    } else if v == 4 {
        '\x04'
    } else if v == 5 {
        '\x05'
    } else if v == 6 {
        '\x06'
    } else if v == 7 {
        '\x07'
    } else if v == 8 {
        '\x08'
    } else if v == 9 {
        '\x09'
    } else if v == 10 {
        '\x0a'
    } else if v == 11 {
        '\x0b'
    } else if v == 12 {
        '\x0c'
    } else if v == 13 {
        '\x0d'
    } else if v == 14 {
        '\x0e'
    } else if v == 15 {
        '\x0f'
    } else if v == 16 {
        '\x10'
    } else if v == 17 {
        '\x11'
    } else if v == 18 {
        '\x12'
    } else if v == 19 {
        '\x13'
    } else if v == 20 {
        '\x14'
    } else if v == 21 {
        '\x15'
    } else if v == 22 {
        '\x16'
    } else if v == 23 {
        '\x17'
    } else if v == 24 {
        '\x18'
    } else if v == 25 {
        '\x19'
    } else if v == 26 {
        '\x1a'
    } else if v == 27 {
        '\x1b'
    } else if v == 28 {
        '\x1c'
    } else if v == 29 {
        '\x1d'
    } else if v == 30 {
        '\x1e'
    } else {
        '\x1f'
    }
}

/// A character's code is a Unicode scalar value.
proof fn lemma_char_range(c: char)
    ensures
        0 <= c as int <= 0x10FFFF,
{
}

/// Two characters with the same code are the same character.
proof fn lemma_char_code_inj(a: char, b: char)
    requires
        a as int == b as int,
    ensures
        a == b,
{
    if a != b {
        assert((a as int) != (b as int));
    }
}

/// The character table inverts taking the code, below 32.
proof fn lemma_low_char_id(c: char)
    requires
        0 <= (c as int) && (c as int) < 32,
    ensures
        low_char(c as int) == c,
{
    lemma_char_code_inj(low_char(c as int), c);
}

/// Hex digits round-trip through their values.
proof fn lemma_hex_digit_val(v: int)
    requires
        0 <= v < 16,
    ensures
        hex_val(hex_digit(v)) == v,
{
}

/// How one character is written inside a JSON string: quote and backslash
/// get a backslash escape, characters below 32 a `\u00XX` escape, and
/// everything else stands for itself.
pub open spec fn esc_char(c: char) -> Seq<char> {
    if c == '"' {
        seq!['\\', '"']
    } else if c == '\\' {
        seq!['\\', '\\']
    } else if (c as int) < 32 {
        seq!['\\', 'u', '0', '0', hex_digit((c as int) / 16), hex_digit((c as int) % 16)]
    } else {
        seq![c]
    }
}

/// A string's characters written in order, each escaped as needed.
pub open spec fn esc_str(s: Seq<char>) -> Seq<char>
    decreases s.len(),
{
    if s.len() == 0 {
        Seq::empty()
    } else {
        esc_char(s[0]) + esc_str(s.drop_first())
    }
}

/// A JSON string: the escaped characters between two quotes.
pub open spec fn enc_string(s: Seq<char>) -> Seq<char> {
    seq!['"'] + esc_str(s) + seq!['"']
}

/// The decimal digits of a non-negative number, most significant first.
pub open spec fn dec_digits_of(n: nat) -> Seq<char>
    decreases n,
{
    if n < 10 {
        seq![digit_char(n as int)]
    } else {
        dec_digits_of(n / 10).push(digit_char((n % 10) as int))
    }
}

/// A JSON array of strings, comma-separated, without spaces.
pub open spec fn enc_list_body(ctx: Seq<Seq<char>>) -> Seq<char>
    decreases ctx.len(),
{
    if ctx.len() == 0 {
        Seq::empty()
    } else if ctx.len() == 1 {
        enc_string(ctx[0])
    } else {
        enc_string(ctx[0]) + seq![','] + enc_list_body(ctx.drop_first())
    }
}

/// A JSON array of strings with its brackets.
pub open spec fn enc_list(ctx: Seq<Seq<char>>) -> Seq<char> {
    seq!['['] + enc_list_body(ctx) + seq![']']
}

/// One item as a JSON record, fields in declaration order.
pub open spec fn enc_item(v: ItemView) -> Seq<char> {
    "{\"priority\":"@ + enc_string(v.priority) + ",\"body\":"@ + enc_string(v.body)
        + ",\"assignee\":"@ + enc_string(v.assignee) + ",\"context\":"@ + enc_list(v.context)
        + ",\"file\":"@ + enc_string(v.file) + ",\"line\":"@ + dec_digits_of(v.line as nat)
        + "}"@
}

/// The items as a comma-separated JSON array body.
pub open spec fn enc_items_body(vs: Seq<ItemView>) -> Seq<char>
    decreases vs.len(),
{
    if vs.len() == 0 {
        Seq::empty()
    } else if vs.len() == 1 {
        enc_item(vs[0])
    } else {
        enc_item(vs[0]) + seq![','] + enc_items_body(vs.drop_first())
    }
}

/// The whole collection as one JSON array.
pub open spec fn enc_items(vs: Seq<ItemView>) -> Seq<char> {
    seq!['['] + enc_items_body(vs) + seq![']']
}

/// Strips the literal `l` from the front of `s`, or fails.
pub open spec fn expect(s: Seq<char>, l: Seq<char>) -> Option<Seq<char>> {
    if l.len() <= s.len() && s.take(l.len() as int) =~= l {
        Some(s.skip(l.len() as int))
    } else {
        None
    }
}

/// Reads a JSON string body up to and including its closing quote,
/// undoing the escapes [`esc_char`] writes; yields the decoded characters
/// and the rest of the input.
pub open spec fn dec_str_body(s: Seq<char>) -> Option<(Seq<char>, Seq<char>)>
    decreases s.len(),
{
    if s.len() == 0 {
        None
    } else if s[0] == '"' {
        Some((Seq::empty(), s.drop_first()))
    } else if s[0] == '\\' {
        if s.len() < 2 {
            None
        } else if s[1] == '"' || s[1] == '\\' {
            match dec_str_body(s.skip(2)) {
                None => None,
                Some((v, r)) => Some((seq![s[1]] + v, r)),
            }
        } else if s[1] == 'u' {
            if s.len() < 6 {
                None
            } else if s[2] == '0' && s[3] == '0' && hex_val(s[4]) >= 0 && hex_val(s[5]) >= 0
                && hex_val(s[4]) * 16 + hex_val(s[5]) < 32 {
                match dec_str_body(s.skip(6)) {
                    None => None,
                    Some((v, r)) => Some(
                        (seq![low_char(hex_val(s[4]) * 16 + hex_val(s[5]))] + v, r),
                    ),
                }
            } else {
                None
            }
        } else {
            None
        }
    } else if (s[0] as int) < 32 {
        None
    } else {
        match dec_str_body(s.drop_first()) {
            None => None,
            Some((v, r)) => Some((seq![s[0]] + v, r)),
        }
    }
}

/// Reads one JSON string including its quotes.
pub open spec fn dec_string(s: Seq<char>) -> Option<(Seq<char>, Seq<char>)> {
    if s.len() >= 1 && s[0] == '"' {
        dec_str_body(s.skip(1))
    } else {
        None
    }
}

/// Length of the run of decimal digits at the front of `s`.
pub open spec fn digits_len(s: Seq<char>) -> int
    decreases s.len(),
{
    if s.len() > 0 && is_digit(s[0]) {
        1 + digits_len(s.drop_first())
    } else {
        0
    }
}

/// Reads a decimal number that fits an unsigned 32-bit value.
pub open spec fn dec_number(s: Seq<char>) -> Option<(nat, Seq<char>)> {
    let k = digits_len(s);
    if k >= 1 && dec_val(s.take(k)) <= u32::MAX as nat {
        Some((dec_val(s.take(k)), s.skip(k)))
    } else {
        None
    }
}

proof fn lemma_dec_str_body_consumes(s: Seq<char>)
    ensures
        dec_str_body(s) matches Some(p) ==> p.1.len() < s.len(),
    decreases s.len(),
{
    if s.len() == 0 {
    } else if s[0] == '"' {
    } else if s[0] == '\\' {
        if s.len() >= 2 && (s[1] == '"' || s[1] == '\\') {
            lemma_dec_str_body_consumes(s.skip(2));
        } else if s.len() >= 6 && s[1] == 'u' {
            lemma_dec_str_body_consumes(s.skip(6));
        }
    } else {
        lemma_dec_str_body_consumes(s.drop_first());
    }
}

proof fn lemma_dec_string_consumes(s: Seq<char>)
    ensures
        dec_string(s) matches Some(p) ==> p.1.len() < s.len(),
{
    if s.len() >= 1 && s[0] == '"' {
        lemma_dec_str_body_consumes(s.skip(1));
    }
}

proof fn lemma_digits_len_bounds(s: Seq<char>)
    ensures
        0 <= digits_len(s) <= s.len(),
    decreases s.len(),
{
    if s.len() > 0 && is_digit(s[0]) {
        lemma_digits_len_bounds(s.drop_first());
    }
}

/// Reads the string elements of a JSON array after its opening bracket,
/// up to and including the closing bracket.
pub open spec fn dec_strings_rest(s: Seq<char>) -> Option<(Seq<Seq<char>>, Seq<char>)>
    decreases s.len(),
    via dec_strings_rest_decreases
{
    match dec_string(s) {
        None => None,
        Some((v, r)) => {
            if r.len() >= 1 && r[0] == ',' {
                match dec_strings_rest(r.skip(1)) {
                    None => None,
                    Some((vs, r2)) => Some((seq![v] + vs, r2)),
                }
            } else if r.len() >= 1 && r[0] == ']' {
                Some((seq![v], r.skip(1)))
            } else {
                None
            }
        },
    }
}

#[via_fn]
proof fn dec_strings_rest_decreases(s: Seq<char>) {
    lemma_dec_string_consumes(s);
}

/// Reads a JSON array of strings including its brackets.
pub open spec fn dec_list(s: Seq<char>) -> Option<(Seq<Seq<char>>, Seq<char>)> {
    if s.len() >= 2 && s[0] == '[' && s[1] == ']' {
        Some((Seq::empty(), s.skip(2)))
    } else if s.len() >= 1 && s[0] == '[' {
        dec_strings_rest(s.skip(1))
    } else {
        None
    }
}

proof fn lemma_dec_strings_rest_consumes(s: Seq<char>)
    ensures
        dec_strings_rest(s) matches Some(p) ==> p.1.len() < s.len(),
    decreases s.len(),
{
    lemma_dec_string_consumes(s);
    match dec_string(s) {
        None => {},
        Some((v, r)) => {
            if r.len() >= 1 && r[0] == ',' {
                lemma_dec_strings_rest_consumes(r.skip(1));
            }
        },
    }
}

/// Reads one record with exactly the fields and order [`enc_item`] writes.
pub open spec fn dec_item(s: Seq<char>) -> Option<(ItemView, Seq<char>)> {
    match expect(s, "{\"priority\":"@) {
        None => None,
        Some(s1) => match dec_string(s1) {
            None => None,
            Some((prio, s2)) => match expect(s2, ",\"body\":"@) {
                None => None,
                Some(s3) => match dec_string(s3) {
                    None => None,
                    Some((body, s4)) => match expect(s4, ",\"assignee\":"@) {
                        None => None,
                        Some(s5) => match dec_string(s5) {
                            None => None,
                            Some((asg, s6)) => match expect(s6, ",\"context\":"@) {
                                None => None,
                                Some(s7) => match dec_list(s7) {
                                    None => None,
                                    Some((ctx, s8)) => match expect(s8, ",\"file\":"@) {
                                        None => None,
                                        Some(s9) => match dec_string(s9) {
                                            None => None,
                                            Some((file, s10)) => match expect(s10, ",\"line\":"@) {
                                                None => None,
                                                Some(s11) => match dec_number(s11) {
                                                    None => None,
                                                    Some((line, s12)) => match expect(s12, "}"@) {
                                                        None => None,
                                                        Some(s13) => Some(
                                                            (
                                                                ItemView {
                                                                    priority: prio,
                                                                    body: body,
                                                                    assignee: asg,
                                                                    context: ctx,
                                                                    file: file,
                                                                    line: line as int,
                                                                },
                                                                s13,
                                                            ),
                                                        ),
                                                    },
                                                },
                                            },
                                        },
                                    },
                                },
                            },
                        },
                    },
                },
            },
        },
    }
}

proof fn lemma_dec_item_consumes(s: Seq<char>)
    ensures
        dec_item(s) matches Some(p) ==> p.1.len() < s.len(),
{
    reveal_strlit("{\"priority\":");
    if expect(s, "{\"priority\":"@) is Some {
        let s1 = expect(s, "{\"priority\":"@)->Some_0;
        assert(s1.len() < s.len());
        lemma_dec_string_consumes(s1);
        if dec_string(s1) is Some {
            let s2 = (dec_string(s1)->Some_0).1;
            if expect(s2, ",\"body\":"@) is Some {
                let s3 = expect(s2, ",\"body\":"@)->Some_0;
                lemma_dec_string_consumes(s3);
                if dec_string(s3) is Some {
                    let s4 = (dec_string(s3)->Some_0).1;
                    if expect(s4, ",\"assignee\":"@) is Some {
                        let s5 = expect(s4, ",\"assignee\":"@)->Some_0;
                        lemma_dec_string_consumes(s5);
                        if dec_string(s5) is Some {
                            let s6 = (dec_string(s5)->Some_0).1;
                            if expect(s6, ",\"context\":"@) is Some {
                                let s7 = expect(s6, ",\"context\":"@)->Some_0;
                                lemma_dec_strings_rest_consumes(s7.skip(1));
                                if dec_list(s7) is Some {
                                    let s8 = (dec_list(s7)->Some_0).1;
                                    assert(s8.len() <= s7.len());
                                    if expect(s8, ",\"file\":"@) is Some {
                                        let s9 = expect(s8, ",\"file\":"@)->Some_0;
                                        lemma_dec_string_consumes(s9);
                                        if dec_string(s9) is Some {
                                            let s10 = (dec_string(s9)->Some_0).1;
                                            if expect(s10, ",\"line\":"@) is Some {
                                                let s11 = expect(s10, ",\"line\":"@)->Some_0;
                                                lemma_digits_len_bounds(s11);
                                                if dec_number(s11) is Some {
                                                    let s12 = (dec_number(s11)->Some_0).1;
                                                    assert(s12.len() <= s11.len());
                                                    if expect(s12, "}"@) is Some {
                                                        let s13 = expect(s12, "}"@)->Some_0;
                                                        assert(s13.len() <= s12.len());
                                                    }
                                                }
                                            }
                                        }
                                    }
                                }
                            }
                        }
                    }
                }
            }
        }
    }
}

/// Reads the records of the top-level array after its opening bracket, up
/// to and including the closing bracket.
pub open spec fn dec_items_rest(s: Seq<char>) -> Option<(Seq<ItemView>, Seq<char>)>
    decreases s.len(),
    via dec_items_rest_decreases
{
    match dec_item(s) {
        None => None,
        Some((v, r)) => {
            if r.len() >= 1 && r[0] == ',' {
                match dec_items_rest(r.skip(1)) {
                    None => None,
                    Some((vs, r2)) => Some((seq![v] + vs, r2)),
                }
            } else if r.len() >= 1 && r[0] == ']' {
                Some((seq![v], r.skip(1)))
            } else {
                None
            }
        },
    }
}

#[via_fn]
proof fn dec_items_rest_decreases(s: Seq<char>) {
    lemma_dec_item_consumes(s);
}

/// Reads a whole serialized collection: one JSON array of records, with
/// nothing before or after it.
pub open spec fn dec_items_spec(s: Seq<char>) -> Option<Seq<ItemView>> {
    if s.len() == 2 && s[0] == '[' && s[1] == ']' {
        Some(Seq::empty())
    } else if s.len() >= 1 && s[0] == '[' {
        match dec_items_rest(s.skip(1)) {
            None => None,
            Some((vs, r)) => if r.len() == 0 {
                Some(vs)
            } else {
                None
            },
        }
    } else {
        None
    }
}

/// Relies on String::push: appends exactly one character.
#[verifier::external_body]
fn push_char(s: &mut String, c: char)
    ensures
        final (s)@ == old(s)@.push(c),
{
    s.push(c);
}

proof fn lemma_esc_str_push(s: Seq<char>, c: char)
    ensures
        esc_str(s.push(c)) == esc_str(s) + esc_char(c),
    decreases s.len(),
{
    if s.len() == 0 {
        assert(s.push(c).drop_first() =~= Seq::<char>::empty());
        assert(s.push(c)[0] == c);
        assert(esc_str(Seq::<char>::empty()) == Seq::<char>::empty());
        assert(esc_str(s.push(c)) == esc_char(c) + esc_str(s.push(c).drop_first()));
        assert(esc_str(s.push(c)) =~= esc_char(c));
        assert(esc_str(s) + esc_char(c) =~= esc_char(c));
    } else {
        assert(s.push(c).drop_first() =~= s.drop_first().push(c));
        lemma_esc_str_push(s.drop_first(), c);
        assert(esc_str(s.push(c)) =~= esc_char(s[0]) + (esc_str(s.drop_first()) + esc_char(c)));
        assert(esc_char(s[0]) + (esc_str(s.drop_first()) + esc_char(c)) =~= esc_str(s) + esc_char(
            c,
        ));
    }
}

/// The decimal digit character of a value below ten.
fn digit_char_exec(v: u32) -> (r: char)
    requires
        v < 10,
    ensures
        r == digit_char(v as int),
{
    if v == 0 {
        '0'
    } else if v == 1 {
        '1'
    } else if v == 2 {
        '2'
    } else if v == 3 {
        '3'
    } else if v == 4 {
        '4'
    } else if v == 5 {
        '5'
    } else if v == 6 {
        '6'
    } else if v == 7 {
        '7'
    } else if v == 8 {
        '8'
    } else {
        '9'
    }
}

/// The lower-case hex digit character of a value below sixteen.
fn hex_digit_exec(v: u32) -> (r: char)
    requires
        v < 16,
    ensures
        r == hex_digit(v as int),
{
    if v < 10 {
        digit_char_exec(v)
    } else if v == 10 {
        'a'
    } else if v == 11 {
        'b'
    } else if v == 12 {
        'c'
    } else if v == 13 {
        'd'
    } else if v == 14 {
        'e'
    } else {
        'f'
    }
}

fn push_escaped(out: &mut String, t: &str)
    ensures
        final (out)@ == old(out)@ + esc_str(t@),
{
    let n = t.unicode_len();
    let mut i: usize = 0;
    proof {
        assert(esc_str(t@.take(0)) =~= Seq::<char>::empty());
        assert(old(out)@ + Seq::<char>::empty() =~= old(out)@);
    }
    while i < n
        invariant
            0 <= i <= n,
            n == t@.len(),
            out@ == old(out)@ + esc_str(t@.take(i as int)),
        decreases n - i,
    {
        let c = t.get_char(i);
        let c32 = c as u32;
        proof {
            assert((c as u32) as int == c as int);
        }
        if c == '"' {
            push_char(out, '\\');
            push_char(out, '"');
        } else if c == '\\' {
            push_char(out, '\\');
            push_char(out, '\\');
        } else if c32 < 32 {
            push_char(out, '\\');
            push_char(out, 'u');
            push_char(out, '0');
            push_char(out, '0');
            push_char(out, hex_digit_exec(c32 / 16));
            push_char(out, hex_digit_exec(c32 % 16));
            proof {
                assert((c32 / 16) as int == (c as int) / 16);
                assert((c32 % 16) as int == (c as int) % 16);
            }
        } else {
            push_char(out, c);
        }
        proof {
            lemma_esc_str_push(t@.take(i as int), t@[i as int]);
            assert(t@.take(i + 1) =~= t@.take(i as int).push(t@[i as int]));
            assert(out@ =~= old(out)@ + esc_str(t@.take(i + 1)));
        }
        i += 1;
    }
    proof {
        assert(t@.take(n as int) =~= t@);
    }
}

fn push_quoted(out: &mut String, t: &str)
    ensures
        final (out)@ == old(out)@ + enc_string(t@),
{
    push_char(out, '"');
    push_escaped(out, t);
    push_char(out, '"');
    proof {
        assert(out@ =~= old(out)@ + enc_string(t@));
    }
}

fn push_number(out: &mut String, n: u32)
    ensures
        final (out)@ == old(out)@ + dec_digits_of(n as nat),
    decreases n,
{
    if n < 10 {
        push_char(out, digit_char_exec(n));
        proof {
            assert(old(out)@.push(digit_char(n as int)) =~= old(out)@ + dec_digits_of(n as nat));
        }
    } else {
        proof {
            assert(n / 10 < n) by (nonlinear_arith)
                requires
                    n >= 10,
            ;
            assert((n / 10) as nat == (n as nat) / 10);
            assert((n % 10) as nat == (n as nat) % 10);
        }
        push_number(out, n / 10);
        push_char(out, digit_char_exec(n % 10));
        proof {
            assert((old(out)@ + dec_digits_of((n / 10) as nat)).push(
                digit_char((n % 10) as int),
            ) =~= old(out)@ + dec_digits_of(n as nat));
        }
    }
}

/// What is still to be written after the first `i` elements of a
/// comma-separated string list: the separator before the next element, and
/// the rest of the body.
spec fn list_rest(cv: Seq<Seq<char>>, i: int) -> Seq<char> {
    if i <= 0 {
        enc_list_body(cv)
    } else if i < cv.len() {
        seq![','] + enc_list_body(cv.skip(i))
    } else {
        Seq::empty()
    }
}

fn push_list(out: &mut String, ctx: &Vec<String>)
    ensures
        final (out)@ == old(out)@ + enc_list(ctx@.map_values(|s: String| s@)),
{
    let ghost cv = ctx@.map_values(|s: String| s@);
    push_char(out, '[');
    let ghost base = out@;
    let mut i: usize = 0;
    proof {
        assert(cv.skip(0) =~= cv);
    }
    while i < ctx.len()
        invariant
            0 <= i <= ctx@.len(),
            cv == ctx@.map_values(|s: String| s@),
            out@ + list_rest(cv, i as int) == base + enc_list_body(cv),
        decreases ctx@.len() - i,
    {
        let ghost out_pre = out@;
        if i > 0 {
            push_char(out, ',');
        }
        push_quoted(out, ctx[i].as_str());
        proof {
            let tail = cv.skip(i as int);
            assert(tail[0] == cv[i as int]);
            assert(tail.drop_first() =~= cv.skip(i + 1));
            if i == 0 {
                if cv.len() == 1 {
                    assert(out@ =~= out_pre + enc_string(cv[0]));
                    assert(out@ + list_rest(cv, 1) =~= base + enc_list_body(cv));
                } else {
                    assert(enc_list_body(cv) =~= enc_string(cv[0]) + (seq![','] + enc_list_body(
                        cv.skip(1),
                    )));
                    assert(out@ =~= out_pre + enc_string(cv[0]));
                    assert(out@ + list_rest(cv, 1) =~= base + enc_list_body(cv));
                }
            } else {
                assert(out@ =~= out_pre + (seq![','] + enc_string(cv[i as int])));
                if tail.len() == 1 {
                    assert(enc_list_body(tail) =~= enc_string(cv[i as int]));
                    assert(out@ + list_rest(cv, i + 1) =~= base + enc_list_body(cv));
                } else {
                    assert(enc_list_body(tail) =~= enc_string(cv[i as int]) + (seq![','
                    ] + enc_list_body(cv.skip(i + 1))));
                    assert(out@ + list_rest(cv, i + 1) =~= base + enc_list_body(cv));
                }
            }
        }
        i += 1;
    }
    push_char(out, ']');
    proof {
        assert(out@ =~= old(out)@ + enc_list(cv));
    }
}

fn push_item(out: &mut String, item: &ToDoItem)
    ensures
        final (out)@ == old(out)@ + enc_item(item@),
{
    out.append("{\"priority\":");
    push_quoted(out, item.priority.as_str());
    out.append(",\"body\":");
    push_quoted(out, item.body.as_str());
    out.append(",\"assignee\":");
    push_quoted(out, item.assignee.as_str());
    out.append(",\"context\":");
    push_list(out, &item.context);
    out.append(",\"file\":");
    push_quoted(out, item.file.as_str());
    out.append(",\"line\":");
    push_number(out, item.line);
    out.append("}");
    proof {
        assert(out@ =~= old(out)@ + enc_item(item@));
    }
}

/// What is still to be written after the first `i` items of the array.
spec fn items_rest(vs: Seq<ItemView>, i: int) -> Seq<char> {
    if i <= 0 {
        enc_items_body(vs)
    } else if i < vs.len() {
        seq![','] + enc_items_body(vs.skip(i))
    } else {
        Seq::empty()
    }
}

/// The whole collection serialized as one JSON array of records, exactly as
/// [`enc_items`] describes.
#[verifier::rlimit(100)]
pub fn encode_items(items: &Vec<ToDoItem>) -> (r: String)
    ensures
        r@ == enc_items(item_views(items@)),
{
    let ghost vs = item_views(items@);
    let mut out = String::new();
    push_char(&mut out, '[');
    let ghost base = out@;
    let mut i: usize = 0;
    proof {
        assert(vs.skip(0) =~= vs);
    }
    while i < items.len()
        invariant
            0 <= i <= items@.len(),
            vs == item_views(items@),
            out@ + items_rest(vs, i as int) == base + enc_items_body(vs),
        decreases items@.len() - i,
    {
        let ghost out_pre = out@;
        if i > 0 {
            push_char(&mut out, ',');
        }
        push_item(&mut out, &items[i]);
        proof {
            let tail = vs.skip(i as int);
            assert(tail[0] == vs[i as int]);
            assert(tail.drop_first() =~= vs.skip(i + 1));
            if i == 0 {
                if vs.len() == 1 {
                    assert(out@ =~= out_pre + enc_item(vs[0]));
                    assert(out@ + items_rest(vs, 1) =~= base + enc_items_body(vs));
                } else {
                    assert(enc_items_body(vs) =~= enc_item(vs[0]) + (seq![','] + enc_items_body(
                        vs.skip(1),
                    )));
                    assert(out@ =~= out_pre + enc_item(vs[0]));
                    assert(out@ + items_rest(vs, 1) =~= base + enc_items_body(vs));
                }
            } else {
                assert(out@ =~= out_pre + (seq![','] + enc_item(vs[i as int])));
                if tail.len() == 1 {
                    assert(enc_items_body(tail) =~= enc_item(vs[i as int]));
                    assert(out@ + items_rest(vs, i + 1) =~= base + enc_items_body(vs));
                } else {
                    assert(enc_items_body(tail) =~= enc_item(vs[i as int]) + (seq![','
                    ] + enc_items_body(vs.skip(i + 1))));
                    assert(out@ + items_rest(vs, i + 1) =~= base + enc_items_body(vs));
                }
            }
        }
        i += 1;
    }
    push_char(&mut out, ']');
    proof {
        assert(out@ =~= enc_items(vs));
    }
    out
}

proof fn lemma_expect_prefix(l: Seq<char>, x: Seq<char>)
    ensures
        expect(l + x, l) == Some(x),
{
    assert((l + x).take(l.len() as int) =~= l);
    assert((l + x).skip(l.len() as int) =~= x);
}

proof fn lemma_dec_body_enc(s: Seq<char>, rest: Seq<char>)
    ensures
        dec_str_body(esc_str(s) + seq!['"'] + rest) == Some((s, rest)),
    decreases s.len(),
{
    let x = esc_str(s) + seq!['"'] + rest;
    if s.len() == 0 {
        assert(esc_str(s) =~= Seq::<char>::empty());
        assert(x[0] == '"');
        assert(x.drop_first() =~= rest);
        assert(dec_str_body(x) == Some((Seq::<char>::empty(), rest)));
        assert(Seq::<char>::empty() =~= s);
    } else {
        let c = s[0];
        let tail = esc_str(s.drop_first()) + seq!['"'] + rest;
        assert(esc_str(s) == esc_char(c) + esc_str(s.drop_first()));
        assert(x =~= esc_char(c) + tail);
        lemma_dec_body_enc(s.drop_first(), rest);
        if c == '"' {
            assert(x[0] == '\\');
            assert(x[1] == '"');
            assert(x.skip(2) =~= tail);
            assert(dec_str_body(x) == Some((seq![x[1]] + s.drop_first(), rest)));
            assert(seq![c] + s.drop_first() =~= s);
        } else if c == '\\' {
            assert(x[0] == '\\');
            assert(x[1] == '\\');
            assert(x.skip(2) =~= tail);
            assert(dec_str_body(x) == Some((seq![x[1]] + s.drop_first(), rest)));
            assert(seq![c] + s.drop_first() =~= s);
        } else if (c as int) < 32 {
            let code = c as int;
            lemma_char_range(c);
            assert(0 <= code);
            lemma_fundamental_div_mod(code, 16);
            assert(0 <= code / 16 < 2);
            assert(0 <= code % 16 < 16);
            lemma_hex_digit_val(code / 16);
            lemma_hex_digit_val(code % 16);
            assert(x[0] == '\\');
            assert(x[1] == 'u');
            assert(x[2] == '0');
            assert(x[3] == '0');
            assert(x[4] == hex_digit(code / 16));
            assert(x[5] == hex_digit(code % 16));
            assert(hex_val(x[4]) * 16 + hex_val(x[5]) == code);
            lemma_low_char_id(c);
            assert(x.skip(6) =~= tail);
            assert(dec_str_body(x) == Some((seq![low_char(code)] + s.drop_first(), rest)));
            assert(seq![c] + s.drop_first() =~= s);
        } else {
            assert(x[0] == c);
            assert(x.drop_first() =~= tail);
            assert(dec_str_body(x) == Some((seq![c] + s.drop_first(), rest)));
            assert(seq![c] + s.drop_first() =~= s);
        }
    }
}

proof fn lemma_dec_string_enc(s: Seq<char>, rest: Seq<char>)
    ensures
        dec_string(enc_string(s) + rest) == Some((s, rest)),
{
    let x = enc_string(s) + rest;
    assert(x[0] == '"');
    assert(x.skip(1) =~= esc_str(s) + seq!['"'] + rest);
    lemma_dec_body_enc(s, rest);
}

proof fn lemma_digit_char_val(v: int)
    requires
        0 <= v < 10,
    ensures
        is_digit(digit_char(v)),
        digit_val(digit_char(v)) == v,
{
}

proof fn lemma_dec_digits_props(n: nat)
    ensures
        dec_digits_of(n).len() >= 1,
        all_digits(dec_digits_of(n)),
        dec_val(dec_digits_of(n)) == n,
    decreases n,
{
    if n < 10 {
        lemma_digit_char_val(n as int);
        let d = seq![digit_char(n as int)];
        assert(d.drop_last() =~= Seq::<char>::empty());
        assert(dec_val(d) == dec_val(Seq::<char>::empty()) * 10 + digit_val(d.last()));
        assert(dec_val(Seq::<char>::empty()) == 0);
    } else {
        assert(n / 10 < n) by (nonlinear_arith)
            requires
                n >= 10,
        ;
        lemma_dec_digits_props(n / 10);
        lemma_digit_char_val((n % 10) as int);
        let x = dec_digits_of(n / 10);
        let d = digit_char((n % 10) as int);
        assert(x.push(d).drop_last() =~= x);
        assert(x.push(d).last() == d);
        assert(dec_val(x.push(d)) == dec_val(x) * 10 + digit_val(d));
        lemma_fundamental_div_mod(n as int, 10);
        assert(forall|i: int|
            0 <= i < x.push(d).len() ==> is_digit(#[trigger] x.push(d)[i]));
    }
}

proof fn lemma_digits_len_concat(a: Seq<char>, b: Seq<char>)
    requires
        all_digits(a),
        b.len() == 0 || !is_digit(b[0]),
    ensures
        digits_len(a + b) == a.len(),
    decreases a.len(),
{
    if a.len() == 0 {
        assert(a + b =~= b);
    } else {
        assert((a + b)[0] == a[0]);
        assert((a + b).drop_first() =~= a.drop_first() + b);
        assert(all_digits(a.drop_first()));
        lemma_digits_len_concat(a.drop_first(), b);
    }
}

proof fn lemma_dec_number_enc(n: nat, rest: Seq<char>)
    requires
        n <= u32::MAX as nat,
        rest.len() >= 1,
        !is_digit(rest[0]),
    ensures
        dec_number(dec_digits_of(n) + rest) == Some((n, rest)),
{
    let d = dec_digits_of(n);
    let x = d + rest;
    lemma_dec_digits_props(n);
    lemma_digits_len_concat(d, rest);
    assert(digits_len(x) == d.len());
    assert(x.take(d.len() as int) =~= d);
    assert(x.skip(d.len() as int) =~= rest);
}

proof fn lemma_dec_strings_rest_enc(ctx: Seq<Seq<char>>, rest: Seq<char>)
    requires
        ctx.len() >= 1,
    ensures
        dec_strings_rest(enc_list_body(ctx) + seq![']'] + rest) == Some((ctx, rest)),
    decreases ctx.len(),
{
    let x = enc_list_body(ctx) + seq![']'] + rest;
    if ctx.len() == 1 {
        let r = seq![']'] + rest;
        assert(x =~= enc_string(ctx[0]) + r);
        lemma_dec_string_enc(ctx[0], r);
        assert(r[0] == ']');
        assert(r.skip(1) =~= rest);
        assert(seq![ctx[0]] =~= ctx);
    } else {
        let r = seq![','] + (enc_list_body(ctx.drop_first()) + seq![']'] + rest);
        assert(x =~= enc_string(ctx[0]) + r);
        lemma_dec_string_enc(ctx[0], r);
        assert(r[0] == ',');
        assert(r.skip(1) =~= enc_list_body(ctx.drop_first()) + seq![']'] + rest);
        lemma_dec_strings_rest_enc(ctx.drop_first(), rest);
        assert(seq![ctx[0]] + ctx.drop_first() =~= ctx);
    }
}

proof fn lemma_dec_list_enc(ctx: Seq<Seq<char>>, rest: Seq<char>)
    ensures
        dec_list(enc_list(ctx) + rest) == Some((ctx, rest)),
{
    let x = enc_list(ctx) + rest;
    if ctx.len() == 0 {
        assert(enc_list_body(ctx) =~= Seq::<char>::empty());
        assert(x =~= seq!['[', ']'] + rest);
        assert(x[0] == '[');
        assert(x[1] == ']');
        assert(x.len() >= 2);
        assert(x.skip(2) =~= rest);
        assert(Seq::<Seq<char>>::empty() =~= ctx);
    } else {
        assert(x[0] == '[');
        assert(enc_list_body(ctx)[0] == enc_string(ctx[0])[0]);
        assert(enc_string(ctx[0])[0] == '"');
        assert(x[1] == '"');
        assert(x.skip(1) =~= enc_list_body(ctx) + seq![']'] + rest);
        lemma_dec_strings_rest_enc(ctx, rest);
    }
}

#[verifier::rlimit(100)]
proof fn lemma_dec_item_enc(v: ItemView, rest: Seq<char>)
    requires
        0 <= v.line <= u32::MAX as int,
    ensures
        dec_item(enc_item(v) + rest) == Some((v, rest)),
{
    reveal_strlit("{\"priority\":");
    reveal_strlit(",\"body\":");
    reveal_strlit(",\"assignee\":");
    reveal_strlit(",\"context\":");
    reveal_strlit(",\"file\":");
    reveal_strlit(",\"line\":");
    reveal_strlit("}");
    let x = enc_item(v) + rest;
    let t12 = "}"@ + rest;
    let t11 = dec_digits_of(v.line as nat) + t12;
    let t10 = ",\"line\":"@ + t11;
    let t9 = enc_string(v.file) + t10;
    let t8 = ",\"file\":"@ + t9;
    let t7 = enc_list(v.context) + t8;
    let t6 = ",\"context\":"@ + t7;
    let t5 = enc_string(v.assignee) + t6;
    let t4 = ",\"assignee\":"@ + t5;
    let t3 = enc_string(v.body) + t4;
    let t2 = ",\"body\":"@ + t3;
    let t1 = enc_string(v.priority) + t2;
    assert(x =~= "{\"priority\":"@ + t1);
    lemma_expect_prefix("{\"priority\":"@, t1);
    assert(expect(x, "{\"priority\":"@) == Some(t1));
    lemma_dec_string_enc(v.priority, t2);
    lemma_expect_prefix(",\"body\":"@, t3);
    lemma_dec_string_enc(v.body, t4);
    lemma_expect_prefix(",\"assignee\":"@, t5);
    lemma_dec_string_enc(v.assignee, t6);
    lemma_expect_prefix(",\"context\":"@, t7);
    lemma_dec_list_enc(v.context, t8);
    lemma_expect_prefix(",\"file\":"@, t9);
    lemma_dec_string_enc(v.file, t10);
    lemma_expect_prefix(",\"line\":"@, t11);
    assert(t12[0] == '}');
    assert(!is_digit('}'));
    lemma_dec_number_enc(v.line as nat, t12);
    lemma_expect_prefix("}"@, rest);
    assert((v.line as nat) as int == v.line);
    assert(dec_item(x) == Some((v, rest)));
}

/// Every item's line index fits the unsigned 32-bit field it is stored
/// in; true of every collection the parser produces.
pub open spec fn lines_in_range(vs: Seq<ItemView>) -> bool {
    forall|i: int| 0 <= i < vs.len() ==> 0 <= (#[trigger] vs[i]).line <= u32::MAX as int
}

#[verifier::rlimit(100)]
proof fn lemma_items_rest_last(vs: Seq<ItemView>, rest: Seq<char>)
    requires
        vs.len() == 1,
        lines_in_range(vs),
    ensures
        dec_items_rest(enc_items_body(vs) + seq![']'] + rest) == Some((vs, rest)),
{
    let x = enc_items_body(vs) + seq![']'] + rest;
    let r = seq![']'] + rest;
    assert(x =~= enc_item(vs[0]) + r);
    lemma_dec_item_enc(vs[0], r);
    assert(r[0] == ']');
    assert(r.skip(1) =~= rest);
    assert(seq![vs[0]] =~= vs);
}

#[verifier::rlimit(100)]
proof fn lemma_items_rest_step(vs: Seq<ItemView>, rest: Seq<char>)
    requires
        vs.len() >= 2,
        lines_in_range(vs),
        dec_items_rest(enc_items_body(vs.drop_first()) + seq![']'] + rest) == Some(
            (vs.drop_first(), rest),
        ),
    ensures
        dec_items_rest(enc_items_body(vs) + seq![']'] + rest) == Some((vs, rest)),
{
    let x = enc_items_body(vs) + seq![']'] + rest;
    let r = seq![','] + (enc_items_body(vs.drop_first()) + seq![']'] + rest);
    assert(x =~= enc_item(vs[0]) + r);
    lemma_dec_item_enc(vs[0], r);
    assert(r[0] == ',');
    assert(r.skip(1) =~= enc_items_body(vs.drop_first()) + seq![']'] + rest);
    assert(seq![vs[0]] + vs.drop_first() =~= vs);
}

proof fn lemma_dec_items_rest_enc(vs: Seq<ItemView>, rest: Seq<char>)
    requires
        vs.len() >= 1,
        lines_in_range(vs),
    ensures
        dec_items_rest(enc_items_body(vs) + seq![']'] + rest) == Some((vs, rest)),
    decreases vs.len(),
{
    if vs.len() == 1 {
        lemma_items_rest_last(vs, rest);
    } else {
        assert(lines_in_range(vs.drop_first()));
        lemma_dec_items_rest_enc(vs.drop_first(), rest);
        lemma_items_rest_step(vs, rest);
    }
}

/// Round trip: decoding a serialized collection yields exactly the
/// collection that was serialized, item for item and field for field,
/// whatever the items hold.
pub proof fn lemma_round_trip(vs: Seq<ItemView>)
    requires
        lines_in_range(vs),
    ensures
        dec_items_spec(enc_items(vs)) == Some(vs),
{
    let x = enc_items(vs);
    if vs.len() == 0 {
        assert(enc_items_body(vs) =~= Seq::<char>::empty());
        assert(x =~= seq!['[', ']']);
        assert(x.len() == 2 && x[0] == '[' && x[1] == ']');
        assert(Seq::<ItemView>::empty() =~= vs);
    } else {
        reveal_strlit("{\"priority\":");
        assert(x[0] == '[');
        assert(enc_items_body(vs)[0] == enc_item(vs[0])[0]);
        assert(enc_item(vs[0])[0] == "{\"priority\":"@[0]);
        assert("{\"priority\":"@[0] == '{');
        assert(x[1] == '{');
        assert(!(x.len() == 2 && x[0] == '[' && x[1] == ']'));
        assert(x.skip(1) =~= enc_items_body(vs) + seq![']'] + Seq::<char>::empty());
        lemma_dec_items_rest_enc(vs, Seq::empty());
        assert(dec_items_rest(x.skip(1)) == Some((vs, Seq::<char>::empty())));
    }
}

fn hex_val_exec(c: char) -> (r: Option<u32>)
    ensures
        match r {
            Some(v) => v < 16 && hex_val(c) == v as int,
            None => hex_val(c) < 0,
        },
{
    if c == '0' {
        Some(0)
    } else if c == '1' {
        Some(1)
    } else if c == '2' {
        Some(2)
    } else if c == '3' {
        Some(3)
    } else if c == '4' {
        Some(4)
    } else if c == '5' {
        Some(5)
    } else if c == '6' {
        Some(6)
    } else if c == '7' {
        Some(7)
    } else if c == '8' {
        Some(8)
    } else if c == '9' {
        Some(9)
    } else if c == 'a' {
        Some(10)
    } else if c == 'b' {
        Some(11)
    } else if c == 'c' {
        Some(12)
    } else if c == 'd' {
        Some(13)
    } else if c == 'e' {
        Some(14)
    } else if c == 'f' {
        Some(15)
    } else {
        proof {
            assert(!is_digit(c)) by {
                if is_digit(c) {
                    assert(48 <= (c as int) <= 57);
                    lemma_char_code_inj(c, digit_char((c as int) - 48));
                }
            }
        }
        None
    }
}

fn low_char_exec(v: u32) -> (r: char)
    requires
        v < 32,
    ensures
        r == low_char(v as int),
{
    if v == 0 {
        '\x00'
    } else if v == 1 {
        '\x01'
    } else if v == 2 {
        '\x02'
    } else if v == 3 {
        '\x03'
    } else if v == 4 {
        '\x04'
    } else if v == 5 {
        '\x05'
    } else if v == 6 {
        '\x06'
    } else if v == 7 {
        '\x07'
    } else if v == 8 {
        '\x08'
    } else if v == 9 {
        '\x09'
    } else if v == 10 {
        '\x0a'
    } else if v == 11 {
        '\x0b'
    } else if v == 12 {
        '\x0c'
    } else if v == 13 {
        '\x0d'
    } else if v == 14 {
        '\x0e'
    } else if v == 15 {
        '\x0f'
    } else if v == 16 {
        '\x10'
    } else if v == 17 {
        '\x11'
    } else if v == 18 {
        '\x12'
    } else if v == 19 {
        '\x13'
    } else if v == 20 {
        '\x14'
    } else if v == 21 {
        '\x15'
    } else if v == 22 {
        '\x16'
    } else if v == 23 {
        '\x17'
    } else if v == 24 {
        '\x18'
    } else if v == 25 {
        '\x19'
    } else if v == 26 {
        '\x1a'
    } else if v == 27 {
        '\x1b'
    } else if v == 28 {
        '\x1c'
    } else if v == 29 {
        '\x1d'
    } else if v == 30 {
        '\x1e'
    } else {
        '\x1f'
    }
}

fn expect_at(s: &str, p: usize, lit: &str, n: usize) -> (r: Option<usize>)
    requires
        n == s@.len(),
        p <= n,
    ensures
        match r {
            Some(q) => p <= q <= n && expect(s@.skip(p as int), lit@) == Some(
                s@.skip(q as int),
            ),
            None => expect(s@.skip(p as int), lit@) is None,
        },
{
    let m = lit.unicode_len();
    if m > n - p {
        return None;
    }
    if crate::text::match_at(s, lit, p, n, m) {
        proof {
            assert(s@.skip(p as int).take(m as int) =~= s@.subrange(p as int, p + m));
            assert(s@.skip(p as int).skip(m as int) =~= s@.skip(p + m as int));
        }
        Some(p + m)
    } else {
        proof {
            assert(s@.skip(p as int).take(m as int) =~= s@.subrange(p as int, p + m));
            if s@.skip(p as int).take(m as int) =~= lit@ {
                assert(s@.subrange(p as int, p + m) =~= lit@);
            }
        }
        None
    }
}

fn dec_string_at(s: &str, p: usize, n: usize) -> (r: Option<(String, usize)>)
    requires
        n == s@.len(),
        p <= n,
    ensures
        match r {
            Some(v) => p < v.1 <= n && dec_string(s@.skip(p as int)) == Some(
                (v.0@, s@.skip(v.1 as int)),
            ),
            None => dec_string(s@.skip(p as int)) is None,
        },
{
    if p == n {
        return None;
    }
    let c0 = s.get_char(p);
    proof {
        assert(s@.skip(p as int)[0] == s@[p as int]);
    }
    if c0 != '"' {
        return None;
    }
    let mut out = String::new();
    let mut q: usize = p + 1;
    proof {
        assert(s@.skip(p as int).skip(1) =~= s@.skip(p + 1 as int));
        assert(s@.skip(p as int).len() >= 1);
        assert(dec_string(s@.skip(p as int)) == dec_str_body(s@.skip(p + 1 as int)));
    }
    loop
        invariant
            p + 1 <= q <= n,
            n == s@.len(),
            p < n,
            s@[p as int] == '"',
            dec_string(s@.skip(p as int)) == dec_str_body(s@.skip(p + 1 as int)),
            match dec_str_body(s@.skip(q as int)) {
                Some(pr) => dec_str_body(s@.skip(p + 1 as int)) == Some((out@ + pr.0, pr.1)),
                None => dec_str_body(s@.skip(p + 1 as int)) is None,
            },
        decreases n - q,
    {
        let ghost suf = s@.skip(q as int);
        if q == n {
            proof {
                assert(suf.len() == 0);
                assert(dec_str_body(suf) is None);
            }
            return None;
        }
        let c = s.get_char(q);
        proof {
            assert(suf[0] == s@[q as int]);
        }
        if c == '"' {
            proof {
                assert(suf.drop_first() =~= s@.skip(q + 1 as int));
                assert(dec_str_body(suf) == Some(
                    (Seq::<char>::empty(), s@.skip(q + 1 as int)),
                ));
                assert(out@ + Seq::<char>::empty() =~= out@);
                assert(s@.skip(p as int)[0] == '"');
                assert(s@.skip(p as int).skip(1) =~= s@.skip(p + 1 as int));
            }
            return Some((out, q + 1));
        } else if c == '\\' {
            if n - q < 2 {
                proof {
                    assert(suf.len() < 2);
                    assert(dec_str_body(suf) is None);
                }
                return None;
            }
            let e = s.get_char(q + 1);
            proof {
                assert(suf[1] == s@[q + 1 as int]);
            }
            if e == '"' || e == '\\' {
                let ghost pre = out@;
                push_char(&mut out, e);
                proof {
                    assert(suf.skip(2) =~= s@.skip(q + 2 as int));
                    if dec_str_body(s@.skip(q + 2 as int)) is Some {
                        let pr = dec_str_body(s@.skip(q + 2 as int))->Some_0;
                        assert(dec_str_body(suf) == Some((seq![e] + pr.0, pr.1)));
                        assert(pre + (seq![e] + pr.0) =~= out@ + pr.0);
                    } else {
                        assert(dec_str_body(suf) is None);
                    }
                }
                q = q + 2;
            } else if e == 'u' {
                if n - q < 6 {
                    proof {
                        assert(suf.len() < 6);
                        assert(dec_str_body(suf) is None);
                    }
                    return None;
                }
                let c2 = s.get_char(q + 2);
                let c3 = s.get_char(q + 3);
                let h1 = s.get_char(q + 4);
                let h2 = s.get_char(q + 5);
                proof {
                    assert(suf[2] == s@[q + 2 as int]);
                    assert(suf[3] == s@[q + 3 as int]);
                    assert(suf[4] == s@[q + 4 as int]);
                    assert(suf[5] == s@[q + 5 as int]);
                }
                if c2 != '0' || c3 != '0' {
                    proof {
                        assert(dec_str_body(suf) is None);
                    }
                    return None;
                }
                let v1 = match hex_val_exec(h1) {
                    Some(v) => v,
                    None => {
                        proof {
                            assert(dec_str_body(suf) is None);
                        }
                        return None;
                    },
                };
                let v2 = match hex_val_exec(h2) {
                    Some(v) => v,
                    None => {
                        proof {
                            assert(dec_str_body(suf) is None);
                        }
                        return None;
                    },
                };
                let val = v1 * 16 + v2;
                proof {
                    assert(val as int == hex_val(suf[4]) * 16 + hex_val(suf[5]));
                }
                if val >= 32 {
                    proof {
                        assert(dec_str_body(suf) is None);
                    }
                    return None;
                }
                let ghost pre = out@;
                let dc = low_char_exec(val);
                push_char(&mut out, dc);
                proof {
                    assert(suf.skip(6) =~= s@.skip(q + 6 as int));
                    if dec_str_body(s@.skip(q + 6 as int)) is Some {
                        let pr = dec_str_body(s@.skip(q + 6 as int))->Some_0;
                        assert(dec_str_body(suf) == Some((seq![dc] + pr.0, pr.1)));
                        assert(pre + (seq![dc] + pr.0) =~= out@ + pr.0);
                    } else {
                        assert(dec_str_body(suf) is None);
                    }
                }
                q = q + 6;
            } else {
                proof {
                    assert(dec_str_body(suf) is None);
                }
                return None;
            }
        } else {
            let c32 = c as u32;
            proof {
                assert((c as u32) as int == c as int);
            }
            if c32 < 32 {
                proof {
                    assert(dec_str_body(suf) is None);
                }
                return None;
            }
            let ghost pre = out@;
            push_char(&mut out, c);
            proof {
                assert(suf.drop_first() =~= s@.skip(q + 1 as int));
                if dec_str_body(s@.skip(q + 1 as int)) is Some {
                    let pr = dec_str_body(s@.skip(q + 1 as int))->Some_0;
                    assert(dec_str_body(suf) == Some((seq![c] + pr.0, pr.1)));
                    assert(pre + (seq![c] + pr.0) =~= out@ + pr.0);
                } else {
                    assert(dec_str_body(suf) is None);
                }
            }
            q = q + 1;
        }
    }
}

fn dec_number_at(s: &str, p: usize, n: usize) -> (r: Option<(u32, usize)>)
    requires
        n == s@.len(),
        p <= n,
    ensures
        match r {
            Some(v) => p < v.1 <= n && dec_number(s@.skip(p as int)) == Some(
                (v.0 as nat, s@.skip(v.1 as int)),
            ),
            None => dec_number(s@.skip(p as int)) is None,
        },
{
    let ghost suf = s@.skip(p as int);
    let mut acc: u32 = 0;
    let mut q: usize = p;
    loop
        invariant
            p <= q <= n,
            n == s@.len(),
            suf == s@.skip(p as int),
            all_digits(suf.take(q - p)),
            acc as nat == dec_val(suf.take(q - p)),
        decreases n - q,
    {
        let ghost done = q == n;
        let mut stop = q == n;
        let mut cv: u32 = 0;
        if !stop {
            let c = s.get_char(q);
            proof {
                assert(suf[q - p] == s@[q as int]);
            }
            let c32 = c as u32;
            proof {
                assert((c as u32) as int == c as int);
            }
            if c32 < 48 || c32 > 57 {
                stop = true;
            } else {
                cv = c32 - 48;
            }
        }
        if stop {
            proof {
                assert(suf =~= suf.take(q - p) + suf.skip(q - p));
                if q == n {
                    assert(suf.skip(q - p).len() == 0);
                } else {
                    assert(suf.skip(q - p)[0] == suf[q - p]);
                    assert(!is_digit(suf.skip(q - p)[0]));
                }
                lemma_digits_len_concat(suf.take(q - p), suf.skip(q - p));
                assert(digits_len(suf) == q - p);
            }
            if q == p {
                proof {
                    assert(digits_len(suf) == 0);
                }
                return None;
            }
            proof {
                assert(suf.take(digits_len(suf)) =~= suf.take(q - p));
                assert(s@.skip(q as int) =~= suf.skip(q - p));
            }
            return Some((acc, q));
        }
        proof {
            crate::text::lemma_dec_val_take_step(suf, q - p);
        }
        proof {
            assert(digit_val(suf[q - p]) == cv as nat);
            assert(suf.take(q - p + 1) =~= suf.take(q - p).push(suf[q - p]));
            assert forall|i: int| 0 <= i < q - p + 1 implies is_digit(
                #[trigger] suf.take(q - p + 1)[i],
            ) by {
                if i < q - p {
                    assert(suf.take(q - p + 1)[i] == suf.take(q - p)[i]);
                    assert(is_digit(suf.take(q - p)[i]));
                } else {
                    assert(suf.take(q - p + 1)[i] == suf[q - p]);
                }
            }
            assert(dec_val(suf.take(q - p + 1)) == acc * 10 + cv);
        }
        if acc > (u32::MAX - cv) / 10 {
            proof {
                assert(acc * 10 + cv > u32::MAX) by (nonlinear_arith)
                    requires
                        acc > (u32::MAX - cv) / 10,
                        cv <= 9,
                ;
                lemma_digits_prefix_all(suf, q - p + 1);
                lemma_digits_len_bounds(suf);
                let k = digits_len(suf);
                assert(k >= q - p + 1);
                assert(dec_val(suf.take(q - p + 1)) > u32::MAX as nat);
                crate::text::lemma_dec_val_grows(suf.take(k), q - p + 1);
                assert(suf.take(k).take(q - p + 1) =~= suf.take(q - p + 1));
                assert(dec_val(suf.take(k)) >= dec_val(suf.take(q - p + 1)));
                assert(dec_number(suf) is None);
            }
            return None;
        }
        proof {
            assert(acc * 10 + cv <= u32::MAX) by (nonlinear_arith)
                requires
                    acc <= (u32::MAX - cv) / 10,
                    cv <= 9,
            ;
        }
        acc = acc * 10 + cv;
        q += 1;
    }
}

proof fn lemma_digits_prefix_all(s: Seq<char>, m: int)
    requires
        0 <= m <= s.len(),
        all_digits(s.take(m)),
    ensures
        digits_len(s) >= m,
    decreases m,
{
    lemma_digits_len_bounds(s);
    if m > 0 {
        assert(is_digit(s.take(m)[0]));
        assert(s.take(m)[0] == s[0]);
        let t = s.drop_first().take(m - 1);
        assert forall|i: int| 0 <= i < t.len() implies is_digit(#[trigger] t[i]) by {
            assert(t[i] == s.take(m)[i + 1]);
            assert(is_digit(s.take(m)[i + 1]));
        }
        lemma_digits_prefix_all(s.drop_first(), m - 1);
        assert(digits_len(s) == 1 + digits_len(s.drop_first()));
    }
}

fn dec_list_at(s: &str, p: usize, n: usize) -> (r: Option<(Vec<String>, usize)>)
    requires
        n == s@.len(),
        p <= n,
    ensures
        match r {
            Some(v) => p < v.1 <= n && dec_list(s@.skip(p as int)) == Some(
                (v.0@.map_values(|x: String| x@), s@.skip(v.1 as int)),
            ),
            None => dec_list(s@.skip(p as int)) is None,
        },
{
    let ghost suf = s@.skip(p as int);
    if p == n {
        return None;
    }
    let c0 = s.get_char(p);
    proof {
        assert(suf[0] == s@[p as int]);
    }
    if c0 != '[' {
        return None;
    }
    if p + 1 < n && s.get_char(p + 1) == ']' {
        let empty_vec: Vec<String> = Vec::new();
        proof {
            assert(suf[1] == s@[p + 1 as int]);
            assert(suf.len() >= 2);
            assert(suf.skip(2) =~= s@.skip(p + 2 as int));
            assert(empty_vec@.map_values(|x: String| x@) =~= Seq::<Seq<char>>::empty());
        }
        return Some((empty_vec, p + 2));
    }
    proof {
        if p + 1 < n {
            assert(suf[1] == s@[p + 1 as int]);
        }
        assert(suf.skip(1) =~= s@.skip(p + 1 as int));
        assert(dec_list(suf) == dec_strings_rest(s@.skip(p + 1 as int)));
    }
    let mut out: Vec<String> = Vec::new();
    let mut cur: usize = p + 1;
    proof {
        assert(out@.map_values(|x: String| x@) =~= Seq::<Seq<char>>::empty());
    }
    loop
        invariant
            p + 1 <= cur <= n,
            n == s@.len(),
            suf == s@.skip(p as int),
            dec_list(suf) == dec_strings_rest(s@.skip(p + 1 as int)),
            match dec_strings_rest(s@.skip(cur as int)) {
                Some(pr) => dec_strings_rest(s@.skip(p + 1 as int)) == Some(
                    (out@.map_values(|x: String| x@) + pr.0, pr.1),
                ),
                None => dec_strings_rest(s@.skip(p + 1 as int)) is None,
            },
        decreases n - cur,
    {
        let vq = match dec_string_at(s, cur, n) {
            Some(vq) => vq,
            None => {
                proof {
                    assert(dec_strings_rest(s@.skip(cur as int)) is None);
                }
                return None;
            },
        };
        let v = vq.0;
        let q = vq.1;
        if q == n {
            proof {
                assert(s@.skip(q as int).len() == 0);
                assert(dec_strings_rest(s@.skip(cur as int)) is None);
            }
            return None;
        }
        let c = s.get_char(q);
        proof {
            assert(s@.skip(q as int)[0] == s@[q as int]);
        }
        let ghost pre = out@.map_values(|x: String| x@);
        let ghost vv = v@;
        if c == ',' {
            out.push(v);
            proof {
                assert(s@.skip(q as int).skip(1) =~= s@.skip(q + 1 as int));
                assert(out@.map_values(|x: String| x@) =~= pre.push(vv));
                if dec_strings_rest(s@.skip(q + 1 as int)) is Some {
                    let pr = dec_strings_rest(s@.skip(q + 1 as int))->Some_0;
                    assert(dec_strings_rest(s@.skip(cur as int)) == Some((seq![vv] + pr.0, pr.1)));
                    assert(pre + (seq![vv] + pr.0) =~= out@.map_values(|x: String| x@) + pr.0);
                } else {
                    assert(dec_strings_rest(s@.skip(cur as int)) is None);
                }
            }
            cur = q + 1;
        } else if c == ']' {
            out.push(v);
            proof {
                assert(s@.skip(q as int).skip(1) =~= s@.skip(q + 1 as int));
                assert(dec_strings_rest(s@.skip(cur as int)) == Some(
                    (seq![vv], s@.skip(q + 1 as int)),
                ));
                assert(out@.map_values(|x: String| x@) =~= pre.push(vv));
                assert(pre + seq![vv] =~= out@.map_values(|x: String| x@));
            }
            return Some((out, q + 1));
        } else {
            proof {
                assert(dec_strings_rest(s@.skip(cur as int)) is None);
            }
            return None;
        }
    }
}

#[verifier::rlimit(100)]
fn dec_item_at(s: &str, p: usize, n: usize) -> (r: Option<(ToDoItem, usize)>)
    requires
        n == s@.len(),
        p <= n,
    ensures
        match r {
            Some(v) => p < v.1 <= n && dec_item(s@.skip(p as int)) == Some(
                (v.0@, s@.skip(v.1 as int)),
            ),
            None => dec_item(s@.skip(p as int)) is None,
        },
{
    let s1 = match expect_at(s, p, "{\"priority\":", n) {
        Some(q) => q,
        None => {
            return None;
        },
    };
    let ps = match dec_string_at(s, s1, n) {
        Some(x) => x,
        None => {
            return None;
        },
    };
    let prio = ps.0;
    let s2 = ps.1;
    let s3 = match expect_at(s, s2, ",\"body\":", n) {
        Some(q) => q,
        None => {
            return None;
        },
    };
    let bs = match dec_string_at(s, s3, n) {
        Some(x) => x,
        None => {
            return None;
        },
    };
    let body = bs.0;
    let s4 = bs.1;
    let s5 = match expect_at(s, s4, ",\"assignee\":", n) {
        Some(q) => q,
        None => {
            return None;
        },
    };
    let asgs = match dec_string_at(s, s5, n) {
        Some(x) => x,
        None => {
            return None;
        },
    };
    let asg = asgs.0;
    let s6 = asgs.1;
    let s7 = match expect_at(s, s6, ",\"context\":", n) {
        Some(q) => q,
        None => {
            return None;
        },
    };
    let ctxs = match dec_list_at(s, s7, n) {
        Some(x) => x,
        None => {
            return None;
        },
    };
    let ctx = ctxs.0;
    let s8 = ctxs.1;
    let s9 = match expect_at(s, s8, ",\"file\":", n) {
        Some(q) => q,
        None => {
            return None;
        },
    };
    let fs = match dec_string_at(s, s9, n) {
        Some(x) => x,
        None => {
            return None;
        },
    };
    let file = fs.0;
    let s10 = fs.1;
    let s11 = match expect_at(s, s10, ",\"line\":", n) {
        Some(q) => q,
        None => {
            return None;
        },
    };
    let ls = match dec_number_at(s, s11, n) {
        Some(x) => x,
        None => {
            return None;
        },
    };
    let line = ls.0;
    let s12 = ls.1;
    let s13 = match expect_at(s, s12, "}", n) {
        Some(q) => q,
        None => {
            return None;
        },
    };
    let item = ToDoItem { priority: prio, body, assignee: asg, context: ctx, file, line };
    proof {
        assert(dec_item(s@.skip(p as int)) == Some((item@, s@.skip(s13 as int))));
    }
    Some((item, s13))
}

/// Reads back a collection serialized by [`encode_items`]: exactly
/// [`dec_items_spec`] over the input.
pub fn decode_items(s: &str) -> (r: Option<Vec<ToDoItem>>)
    ensures
        match r {
            Some(v) => dec_items_spec(s@) == Some(item_views(v@)),
            None => dec_items_spec(s@) is None,
        },
{
    let n = s.unicode_len();
    if n == 0 {
        return None;
    }
    let c0 = s.get_char(0);
    if c0 != '[' {
        return None;
    }
    if n == 2 && s.get_char(1) == ']' {
        let empty_vec: Vec<ToDoItem> = Vec::new();
        proof {
            assert(item_views(empty_vec@) =~= Seq::<ItemView>::empty());
        }
        return Some(empty_vec);
    }
    let mut out: Vec<ToDoItem> = Vec::new();
    let mut cur: usize = 1;
    proof {
        assert(item_views(out@) =~= Seq::<ItemView>::empty());
    }
    loop
        invariant
            1 <= cur <= n,
            n == s@.len(),
            s@[0] == '[',
            !(n == 2 && s@[1] == ']'),
            match dec_items_rest(s@.skip(cur as int)) {
                Some(pr) => dec_items_rest(s@.skip(1)) == Some(
                    (item_views(out@) + pr.0, pr.1),
                ),
                None => dec_items_rest(s@.skip(1)) is None,
            },
        decreases n - cur,
    {
        let vq = match dec_item_at(s, cur, n) {
            Some(x) => x,
            None => {
                proof {
                    assert(dec_items_rest(s@.skip(cur as int)) is None);
                }
                return None;
            },
        };
        let v = vq.0;
        let q = vq.1;
        if q == n {
            proof {
                assert(s@.skip(q as int).len() == 0);
                assert(dec_items_rest(s@.skip(cur as int)) is None);
            }
            return None;
        }
        let c = s.get_char(q);
        proof {
            assert(s@.skip(q as int)[0] == s@[q as int]);
        }
        let ghost pre = item_views(out@);
        let ghost vv = v@;
        if c == ',' {
            out.push(v);
            proof {
                assert(s@.skip(q as int).skip(1) =~= s@.skip(q + 1 as int));
                assert(item_views(out@) =~= pre.push(vv));
                if dec_items_rest(s@.skip(q + 1 as int)) is Some {
                    let pr = dec_items_rest(s@.skip(q + 1 as int))->Some_0;
                    assert(dec_items_rest(s@.skip(cur as int)) == Some((seq![vv] + pr.0, pr.1)));
                    assert(pre + (seq![vv] + pr.0) =~= item_views(out@) + pr.0);
                } else {
                    assert(dec_items_rest(s@.skip(cur as int)) is None);
                }
            }
            cur = q + 1;
        } else if c == ']' {
            out.push(v);
            proof {
                assert(s@.skip(q as int).skip(1) =~= s@.skip(q + 1 as int));
                assert(dec_items_rest(s@.skip(cur as int)) == Some(
                    (seq![vv], s@.skip(q + 1 as int)),
                ));
                assert(item_views(out@) =~= pre.push(vv));
                assert(pre + seq![vv] =~= item_views(out@));
            }
            if q + 1 == n {
                proof {
                    assert(s@.skip(q + 1 as int).len() == 0);
                }
                return Some(out);
            } else {
                proof {
                    assert(s@.skip(q + 1 as int).len() > 0);
                }
                return None;
            }
        } else {
            proof {
                assert(dec_items_rest(s@.skip(cur as int)) is None);
            }
            return None;
        }
    }
}

/// The line index of every item of a real collection fits its field, so
/// the round trip applies to every collection the pipeline produces.
pub proof fn lemma_views_in_range(v: Seq<ToDoItem>)
    ensures
        lines_in_range(item_views(v)),
{
    assert forall|i: int| 0 <= i < item_views(v).len() implies 0 <= (
    #[trigger] item_views(v)[i]).line <= u32::MAX as int by {
        assert(item_views(v)[i] == v[i]@);
    }
}

} // verus!
