//! Character-level text utilities: substring search, trimming, whitespace,
//! decimal parsing and lexicographic ordering, each exec function proved
//! against a spec-level definition over `Seq<char>`.

use vstd::prelude::*;

verus! {

/// `pat` occurs in `text` at position `i`.
pub open spec fn is_match_at(text: Seq<char>, pat: Seq<char>, i: int) -> bool {
    0 <= i && i + pat.len() <= text.len() && text.subrange(i, i + pat.len() as int) =~= pat
}

/// The first position `>= from` at which `pat` occurs in `text`, if any.
pub open spec fn find_spec(text: Seq<char>, pat: Seq<char>, from: int) -> Option<int>
    decreases text.len() - from,
{
    if from < 0 || from + pat.len() > text.len() {
        None
    } else if is_match_at(text, pat, from) {
        Some(from)
    } else {
        find_spec(text, pat, from + 1)
    }
}

proof fn lemma_find_spec_props(text: Seq<char>, pat: Seq<char>, from: int)
    requires
        0 <= from,
    ensures
        match find_spec(text, pat, from) {
            Some(j) => from <= j && is_match_at(text, pat, j) && forall|k: int|
                from <= k < j ==> !is_match_at(text, pat, k),
            None => forall|k: int| from <= k ==> !is_match_at(text, pat, k),
        },
    decreases text.len() - from,
{
    if from + pat.len() > text.len() {
        assert forall|k: int| from <= k implies !is_match_at(text, pat, k) by {
            assert(k + pat.len() > text.len());
        }
    } else if is_match_at(text, pat, from) {
    } else {
        lemma_find_spec_props(text, pat, from + 1);
    }
}

/// If an occurrence exists at or after `from`, the search finds one, and it
/// is the earliest.
pub proof fn lemma_find_spec_complete(text: Seq<char>, pat: Seq<char>, from: int, at: int)
    requires
        0 <= from <= at,
        is_match_at(text, pat, at),
    ensures
        find_spec(text, pat, from) matches Some(j) && from <= j <= at,
    decreases at - from,
{
    if from == at {
    } else if is_match_at(text, pat, from) {
    } else {
        lemma_find_spec_complete(text, pat, from + 1, at);
    }
}

/// The search result, when it exists, is an occurrence and the earliest one
/// at or after `from`.
pub proof fn lemma_find_spec_sound(text: Seq<char>, pat: Seq<char>, from: int)
    requires
        0 <= from,
    ensures
        match find_spec(text, pat, from) {
            Some(j) => from <= j && is_match_at(text, pat, j) && forall|k: int|
                from <= k < j ==> !is_match_at(text, pat, k),
            None => forall|k: int| from <= k ==> !is_match_at(text, pat, k),
        },
{
    lemma_find_spec_props(text, pat, from);
}

/// Whether `pat` occurs at position `i` of `text`.
pub fn match_at(text: &str, pat: &str, i: usize, n: usize, m: usize) -> (r: bool)
    requires
        n == text@.len(),
        m == pat@.len(),
        i + m <= n,
    ensures
        r == is_match_at(text@, pat@, i as int),
{
    let mut j: usize = 0;
    while j < m
        invariant
            0 <= j <= m,
            n == text@.len(),
            m == pat@.len(),
            i + m <= n,
            forall|k: int| 0 <= k < j ==> text@[i + k] == pat@[k],
        decreases m - j,
    {
        if text.get_char(i + j) != pat.get_char(j) {
            assert(text@.subrange(i as int, i + m) != pat@) by {
                assert(text@.subrange(i as int, i + m)[j as int] != pat@[j as int]);
            }
            return false;
        }
        j += 1;
    }
    assert(text@.subrange(i as int, i + m) =~= pat@);
    true
}

/// First occurrence of `pat` in `text` at a position `>= from`, by a linear
/// scan; mirrors [`find_spec`] exactly.
pub fn find_from(text: &str, pat: &str, from: usize) -> (r: Option<usize>)
    ensures
        match r {
            Some(j) => find_spec(text@, pat@, from as int) == Some(j as int),
            None => find_spec(text@, pat@, from as int) is None,
        },
{
    let n = text.unicode_len();
    let m = pat.unicode_len();
    if m > n || from > n - m {
        proof {
            lemma_find_spec_sound(text@, pat@, from as int);
            if find_spec(text@, pat@, from as int) is Some {
                let j = find_spec(text@, pat@, from as int)->Some_0;
                assert(is_match_at(text@, pat@, j));
            }
        }
        return None;
    }
    let mut i: usize = from;
    loop
        invariant
            from <= i <= n - m,
            m <= n,
            n == text@.len(),
            m == pat@.len(),
            find_spec(text@, pat@, from as int) == find_spec(text@, pat@, i as int),
        decreases n - i,
    {
        if match_at(text, pat, i, n, m) {
            return Some(i);
        }
        if i == n - m {
            proof {
                lemma_find_spec_sound(text@, pat@, i as int);
                if find_spec(text@, pat@, i as int) is Some {
                    let j = find_spec(text@, pat@, i as int)->Some_0;
                    assert(is_match_at(text@, pat@, j));
                    assert(j == i);
                }
            }
            return None;
        }
        i += 1;
    }
}

/// Whitespace, the characters trimmed from lines and annotation fields:
/// the Unicode White_Space set — the ASCII controls tab through carriage
/// return, space, next line, no-break space, ogham space mark, the en-quad
/// through hair-space band, the line and paragraph separators, narrow
/// no-break space, medium mathematical space, and ideographic space.
pub open spec fn is_ws(c: char) -> bool {
    let v = c as int;
    ||| 0x09 <= v <= 0x0d
    ||| v == 0x20
    ||| v == 0x85
    ||| v == 0xa0
    ||| v == 0x1680
    ||| 0x2000 <= v <= 0x200a
    ||| v == 0x2028
    ||| v == 0x2029
    ||| v == 0x202f
    ||| v == 0x205f
    ||| v == 0x3000
}

/// Executable mirror of [`is_ws`].
pub fn is_ws_char(c: char) -> (r: bool)
    ensures
        r == is_ws(c),
{
    let v = c as u32;
    proof {
        assert((c as u32) as int == c as int);
    }
    (0x09 <= v && v <= 0x0d) || v == 0x20 || v == 0x85 || v == 0xa0 || v == 0x1680 || (0x2000 <= v
        && v <= 0x200a) || v == 0x2028 || v == 0x2029 || v == 0x202f || v == 0x205f || v == 0x3000
}

/// Index of the first non-whitespace character at or after `from`, or the
/// length if none.
pub open spec fn first_non_ws(s: Seq<char>, from: int) -> int
    decreases s.len() - from,
{
    if from < 0 || from >= s.len() {
        s.len() as int
    } else if is_ws(s[from]) {
        first_non_ws(s, from + 1)
    } else {
        from
    }
}

/// Index one past the last non-whitespace character strictly before `upto`,
/// or 0 if none.
pub open spec fn last_non_ws_end(s: Seq<char>, upto: int) -> int
    decreases upto,
{
    if upto <= 0 || upto > s.len() {
        0
    } else if is_ws(s[upto - 1]) {
        last_non_ws_end(s, upto - 1)
    } else {
        upto
    }
}

/// `s` with leading and trailing whitespace removed.
pub open spec fn trim_spec(s: Seq<char>) -> Seq<char> {
    if first_non_ws(s, 0) == s.len() {
        Seq::empty()
    } else {
        s.subrange(first_non_ws(s, 0), last_non_ws_end(s, s.len() as int))
    }
}

proof fn lemma_first_non_ws_props(s: Seq<char>, from: int)
    requires
        0 <= from <= s.len(),
    ensures
        from <= first_non_ws(s, from) <= s.len(),
        first_non_ws(s, from) < s.len() ==> !is_ws(s[first_non_ws(s, from)]),
        forall|k: int| from <= k < first_non_ws(s, from) ==> is_ws(s[k]),
    decreases s.len() - from,
{
    if from < s.len() && is_ws(s[from]) {
        lemma_first_non_ws_props(s, from + 1);
    }
}

proof fn lemma_last_non_ws_props(s: Seq<char>, upto: int)
    requires
        0 <= upto <= s.len(),
    ensures
        0 <= last_non_ws_end(s, upto) <= upto,
        last_non_ws_end(s, upto) > 0 ==> !is_ws(s[last_non_ws_end(s, upto) - 1]),
        forall|k: int| last_non_ws_end(s, upto) <= k < upto ==> is_ws(s[k]),
    decreases upto,
{
    if upto > 0 && is_ws(s[upto - 1]) {
        lemma_last_non_ws_props(s, upto - 1);
    }
}

proof fn lemma_trim_bounds(s: Seq<char>)
    ensures
        first_non_ws(s, 0) < s.len() ==> first_non_ws(s, 0) < last_non_ws_end(
            s,
            s.len() as int,
        ) <= s.len(),
{
    lemma_first_non_ws_props(s, 0);
    lemma_last_non_ws_props(s, s.len() as int);
    let a = first_non_ws(s, 0);
    let b = last_non_ws_end(s, s.len() as int);
    if a < s.len() && b <= a {
        assert(is_ws(s[a]));
    }
}

/// Trimming never lengthens a sequence.
pub proof fn lemma_trim_len(s: Seq<char>)
    ensures
        trim_spec(s).len() <= s.len(),
{
    lemma_first_non_ws_props(s, 0);
    lemma_last_non_ws_props(s, s.len() as int);
    lemma_trim_bounds(s);
}

/// `s` trimmed of surrounding whitespace, as [`trim_spec`] describes.
pub fn trim_str<'a>(s: &'a str) -> (r: &'a str)
    ensures
        r@ == trim_spec(s@),
{
    let n = s.unicode_len();
    let mut a: usize = 0;
    while a < n && is_ws_char(s.get_char(a))
        invariant
            0 <= a <= n,
            n == s@.len(),
            first_non_ws(s@, 0) == first_non_ws(s@, a as int),
        decreases n - a,
    {
        a += 1;
    }
    assert(first_non_ws(s@, 0) == a as int);
    if a == n {
        let r = s.substring_char(n, n);
        assert(r@ =~= trim_spec(s@));
        return r;
    }
    let mut b: usize = n;
    while b > a && is_ws_char(s.get_char(b - 1))
        invariant
            a <= b <= n,
            n == s@.len(),
            a < n,
            last_non_ws_end(s@, n as int) == last_non_ws_end(s@, b as int),
        decreases b,
    {
        b -= 1;
    }
    proof {
        if b == a {
            assert(last_non_ws_end(s@, b as int) == last_non_ws_end(s@, a as int));
            lemma_last_non_ws_props(s@, a as int);
            lemma_trim_bounds(s@);
            assert(false);
        }
        assert(!is_ws(s@[b - 1]));
        assert(last_non_ws_end(s@, b as int) == b as int);
    }
    s.substring_char(a, b)
}

/// The numeric value of a sequence of decimal digits.
pub open spec fn dec_val(s: Seq<char>) -> nat
    decreases s.len(),
{
    if s.len() == 0 {
        0
    } else {
        dec_val(s.drop_last()) * 10 + digit_val(s.last())
    }
}

/// The value of one decimal digit character.
pub open spec fn digit_val(c: char) -> nat {
    ((c as int) - 48) as nat
}

/// The character is a decimal digit.
pub open spec fn is_digit(c: char) -> bool {
    48 <= (c as int) <= 57
}

/// The whole sequence consists of decimal digits.
pub open spec fn all_digits(s: Seq<char>) -> bool {
    forall|i: int| 0 <= i < s.len() ==> is_digit(s[i])
}

/// The digit part of a count field: the field with one optional leading `+`
/// removed.
pub open spec fn count_digits(s: Seq<char>) -> Seq<char> {
    if s.len() > 0 && s[0] == '+' {
        s.drop_first()
    } else {
        s
    }
}

/// How the third annotation parameter reads as a non-negative integer:
/// an optional `+`, then one or more decimal digits, and a value that fits
/// in `usize`; anything else is rejected.
pub open spec fn parse_count_spec(s: Seq<char>) -> Option<nat> {
    let d = count_digits(s);
    if d.len() > 0 && all_digits(d) && dec_val(d) <= usize::MAX as nat {
        Some(dec_val(d))
    } else {
        None
    }
}

/// Reading one more digit multiplies the value by ten and adds the digit.
pub proof fn lemma_dec_val_take_step(s: Seq<char>, i: int)
    requires
        0 <= i < s.len(),
    ensures
        dec_val(s.take(i + 1)) == dec_val(s.take(i)) * 10 + digit_val(s[i]),
{
    assert(s.take(i + 1).drop_last() =~= s.take(i));
    assert(s.take(i + 1).last() == s[i]);
}

/// The value of a prefix of a digit string never exceeds the whole.
pub proof fn lemma_dec_val_grows(s: Seq<char>, i: int)
    requires
        0 <= i <= s.len(),
    ensures
        dec_val(s.take(i)) <= dec_val(s),
    decreases s.len() - i,
{
    if i < s.len() {
        lemma_dec_val_take_step(s, i);
        lemma_dec_val_grows(s, i + 1);
        assert(dec_val(s.take(i)) <= dec_val(s.take(i + 1)));
    } else {
        assert(s.take(i) =~= s);
    }
}

/// Parse a digit string (after the optional sign) starting at char index
/// `start`; `None` when empty, non-digit, or over `usize::MAX`.
fn parse_digits(s: &str, start: usize, n: usize) -> (r: Option<usize>)
    requires
        n == s@.len(),
        start <= n,
    ensures
        ({
            let d = s@.subrange(start as int, n as int);
            match r {
                Some(v) => d.len() > 0 && all_digits(d) && dec_val(d) == v as nat,
                None => !(d.len() > 0 && all_digits(d) && dec_val(d) <= usize::MAX as nat),
            }
        }),
{
    let ghost d = s@.subrange(start as int, n as int);
    if start == n {
        return None;
    }
    let mut acc: usize = 0;
    let mut i: usize = start;
    while i < n
        invariant
            start <= i <= n,
            n == s@.len(),
            d == s@.subrange(start as int, n as int),
            all_digits(d.take(i - start)),
            acc as nat == dec_val(d.take(i - start)),
        decreases n - i,
    {
        let c = s.get_char(i);
        let cv = c as u32;
        assert(d[i - start] == c);
        if cv < 48 || cv > 57 {
            assert(!all_digits(d));
            return None;
        }
        let dv = (cv - 48) as usize;
        proof {
            lemma_dec_val_take_step(d, i - start);
        }
        if acc > (usize::MAX - dv) / 10 {
            proof {
                assert(acc * 10 + dv > usize::MAX) by (nonlinear_arith)
                    requires
                        acc > (usize::MAX - dv) / 10,
                        dv <= 9,
                ;
                lemma_dec_val_grows(d, i - start + 1);
                assert(dec_val(d) >= dec_val(d.take(i - start + 1)));
            }
            return None;
        }
        proof {
            assert(acc * 10 + dv <= usize::MAX) by (nonlinear_arith)
                requires
                    acc <= (usize::MAX - dv) / 10,
                    dv <= 9,
            ;
        }
        acc = acc * 10 + dv;
        i += 1;
    }
    assert(d.take(n - start) =~= d);
    Some(acc)
}

/// The third annotation parameter parsed as a non-negative integer, exactly
/// as [`parse_count_spec`] describes.
pub fn parse_count(s: &str) -> (r: Option<usize>)
    ensures
        match r {
            Some(v) => parse_count_spec(s@) == Some(v as nat),
            None => parse_count_spec(s@) is None,
        },
{
    let n = s.unicode_len();
    if n > 0 && s.get_char(0) == '+' {
        assert(s@.subrange(1, n as int) =~= count_digits(s@));
        parse_digits(s, 1, n)
    } else {
        assert(s@.subrange(0, n as int) =~= count_digits(s@));
        parse_digits(s, 0, n)
    }
}

/// Lexicographic order on character sequences: the order the final
/// collection is sorted by.
pub open spec fn lex_le(a: Seq<char>, b: Seq<char>) -> bool
    decreases a.len(),
{
    if a.len() == 0 {
        true
    } else if b.len() == 0 {
        false
    } else if a[0] != b[0] {
        (a[0] as int) < (b[0] as int)
    } else {
        lex_le(a.drop_first(), b.drop_first())
    }
}

/// Lexicographic order is total.
pub proof fn lemma_lex_le_total(a: Seq<char>, b: Seq<char>)
    ensures
        lex_le(a, b) || lex_le(b, a),
    decreases a.len(),
{
    if a.len() == 0 {
        assert(lex_le(a, b));
    } else if b.len() == 0 {
        assert(lex_le(b, a));
    } else if a[0] == b[0] {
        lemma_lex_le_total(a.drop_first(), b.drop_first());
    } else {
        assert((a[0] as int) != (b[0] as int));
        assert(lex_le(a, b) || lex_le(b, a));
    }
}

/// Lexicographic order is antisymmetric: ordered both ways means equal.
pub proof fn lemma_lex_le_antisym(a: Seq<char>, b: Seq<char>)
    requires
        lex_le(a, b),
        lex_le(b, a),
    ensures
        a == b,
    decreases a.len(),
{
    if a.len() == 0 {
        assert(b.len() == 0);
        assert(a =~= b);
    } else {
        assert(b.len() > 0);
        assert(a[0] == b[0]);
        lemma_lex_le_antisym(a.drop_first(), b.drop_first());
        assert(a =~= seq![a[0]] + a.drop_first());
        assert(b =~= seq![b[0]] + b.drop_first());
    }
}

/// Lexicographic order is transitive.
pub proof fn lemma_lex_le_trans(a: Seq<char>, b: Seq<char>, c: Seq<char>)
    requires
        lex_le(a, b),
        lex_le(b, c),
    ensures
        lex_le(a, c),
    decreases a.len(),
{
    if a.len() == 0 || b.len() == 0 || c.len() == 0 {
    } else if a[0] == b[0] && b[0] == c[0] {
        lemma_lex_le_trans(a.drop_first(), b.drop_first(), c.drop_first());
    }
}

/// Lexicographic comparison of two strings, exactly [`lex_le`].
pub fn str_le(a: &str, b: &str) -> (r: bool)
    ensures
        r == lex_le(a@, b@),
{
    let na = a.unicode_len();
    let nb = b.unicode_len();
    let mut i: usize = 0;
    assert(a@.skip(0) =~= a@);
    assert(b@.skip(0) =~= b@);
    loop
        invariant
            0 <= i <= na,
            i <= nb,
            na == a@.len(),
            nb == b@.len(),
            lex_le(a@, b@) == lex_le(a@.skip(i as int), b@.skip(i as int)),
            lex_le(b@, a@) == lex_le(b@.skip(i as int), a@.skip(i as int)),
            forall|k: int| 0 <= k < i ==> a@[k] == b@[k],
        decreases na - i,
    {
        if i == na {
            assert(lex_le(a@.skip(i as int), b@.skip(i as int)));
            return true;
        }
        if i == nb {
            assert(b@.skip(i as int).len() == 0);
            assert(a@.skip(i as int).len() > 0);
            assert(!lex_le(a@.skip(i as int), b@.skip(i as int)));
            return false;
        }
        let ca = a.get_char(i);
        let cb = b.get_char(i);
        assert(a@.skip(i as int)[0] == a@[i as int]);
        assert(b@.skip(i as int)[0] == b@[i as int]);
        if ca != cb {
            proof {
                assert((ca as u32) as int == ca as int);
                assert((cb as u32) as int == cb as int);
            }
            return (ca as u32) < (cb as u32);
        }
        assert(a@.skip(i as int).drop_first() =~= a@.skip(i + 1));
        assert(b@.skip(i as int).drop_first() =~= b@.skip(i + 1));
        i += 1;
    }
}

} // verus!

