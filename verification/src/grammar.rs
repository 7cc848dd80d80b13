//! The token grammar: given the configured (start, end) literal pairs, decide
//! whether a line holds an annotation head — a start literal, three or more
//! comma-separated non-empty parameter fields, and an end literal, in that
//! order — and which pair is responsible for it.

use vstd::prelude::*;

use crate::text::{find_from, find_spec, is_match_at, lemma_find_spec_complete,
    lemma_find_spec_sound};

verus! {

/// A single comma, the parameter separator, as a pattern.
pub open spec fn comma() -> Seq<char> {
    seq![',']
}

/// Positions witnessing an annotation head for the pair `(s, t)` on `line`:
/// `s` at `i`, two separating commas at `c1 < c2` leaving all three fields
/// non-empty, and `t` at `e` after them.
pub open spec fn shape_witness(
    line: Seq<char>,
    s: Seq<char>,
    t: Seq<char>,
    i: int,
    c1: int,
    c2: int,
    e: int,
) -> bool {
    &&& is_match_at(line, s, i)
    &&& i + s.len() < c1 < line.len()
    &&& line[c1] == ','
    &&& c1 + 1 < c2 < line.len()
    &&& line[c2] == ','
    &&& c2 + 1 < e
    &&& is_match_at(line, t, e)
}

/// The pair `(s, t)` matches `line`: some choice of positions witnesses the
/// annotation head shape.
pub open spec fn shape_matches(line: Seq<char>, s: Seq<char>, t: Seq<char>) -> bool {
    exists|i: int, c1: int, c2: int, e: int| #[trigger] shape_witness(line, s, t, i, c1, c2, e)
}

/// The earliest-position search for the shape: first occurrence of `s`, then
/// the first comma leaving a non-empty field, then a second such comma, then
/// `t` after a non-empty third field.
pub open spec fn greedy_shape(line: Seq<char>, s: Seq<char>, t: Seq<char>) -> bool {
    match find_spec(line, s, 0) {
        None => false,
        Some(i0) => match find_spec(line, comma(), i0 + s.len() + 1) {
            None => false,
            Some(c1) => match find_spec(line, comma(), c1 + 2) {
                None => false,
                Some(c2) => find_spec(line, t, c2 + 2) is Some,
            },
        },
    }
}

proof fn lemma_comma_at(line: Seq<char>, c: int)
    requires
        0 <= c < line.len(),
    ensures
        is_match_at(line, comma(), c) <==> line[c] == ',',
{
    if line[c] == ',' {
        assert(line.subrange(c, c + 1) =~= comma());
    }
    if is_match_at(line, comma(), c) {
        assert(line.subrange(c, c + 1)[0] == line[c]);
    }
}

/// The earliest-position search finds the shape exactly when some witness
/// exists.
pub proof fn lemma_shape_greedy(line: Seq<char>, s: Seq<char>, t: Seq<char>)
    ensures
        shape_matches(line, s, t) == greedy_shape(line, s, t),
{
    if shape_matches(line, s, t) {
        let (i, c1, c2, e) = choose|i: int, c1: int, c2: int, e: int|
            #[trigger] shape_witness(line, s, t, i, c1, c2, e);
        lemma_comma_at(line, c1);
        lemma_comma_at(line, c2);
        lemma_find_spec_complete(line, s, 0, i);
        let i0 = find_spec(line, s, 0)->Some_0;
        assert(i0 <= i);
        lemma_find_spec_complete(line, comma(), i0 + s.len() + 1, c1);
        let c1p = find_spec(line, comma(), i0 + s.len() + 1)->Some_0;
        assert(c1p <= c1);
        lemma_find_spec_complete(line, comma(), c1p + 2, c2);
        let c2p = find_spec(line, comma(), c1p + 2)->Some_0;
        assert(c2p <= c2);
        lemma_find_spec_complete(line, t, c2p + 2, e);
        assert(greedy_shape(line, s, t));
    }
    if greedy_shape(line, s, t) {
        let i0 = find_spec(line, s, 0)->Some_0;
        let c1 = find_spec(line, comma(), i0 + s.len() + 1)->Some_0;
        let c2 = find_spec(line, comma(), c1 + 2)->Some_0;
        let e = find_spec(line, t, c2 + 2)->Some_0;
        lemma_find_spec_sound(line, s, 0);
        lemma_find_spec_sound(line, comma(), i0 + s.len() + 1);
        lemma_find_spec_sound(line, comma(), c1 + 2);
        lemma_find_spec_sound(line, t, c2 + 2);
        lemma_comma_at(line, c1);
        lemma_comma_at(line, c2);
        assert(shape_witness(line, s, t, i0, c1, c2, e));
    }
}

/// Whether the pair `(start, end)` matches `line`, exactly as
/// [`shape_matches`] describes.
pub fn line_matches_pair(line: &str, start: &str, end: &str) -> (r: bool)
    requires
        line@.len() + 2 <= usize::MAX,
    ensures
        r == shape_matches(line@, start@, end@),
{
    proof {
        lemma_shape_greedy(line@, start@, end@);
        reveal_strlit(",");
        assert(","@ =~= comma());
    }
    let sl = start.unicode_len();
    let i0 = match find_from(line, start, 0) {
        Some(i0) => i0,
        None => {
            return false;
        },
    };
    proof {
        lemma_find_spec_sound(line@, start@, 0);
    }
    let c1 = match find_from(line, ",", i0 + sl + 1) {
        Some(c1) => c1,
        None => {
            return false;
        },
    };
    proof {
        lemma_find_spec_sound(line@, comma(), i0 + sl + 1);
    }
    let c2 = match find_from(line, ",", c1 + 2) {
        Some(c2) => c2,
        None => {
            return false;
        },
    };
    proof {
        lemma_find_spec_sound(line@, comma(), c1 + 2);
    }
    find_from(line, end, c2 + 2).is_some()
}

/// The views of the configured literal pairs, in configuration order.
pub open spec fn lit_views(lits: Seq<(String, String)>) -> Seq<(Seq<char>, Seq<char>)> {
    lits.map_values(|p: (String, String)| (p.0@, p.1@))
}

/// Some configured pair matches the line.
pub open spec fn any_pair_matches(line: Seq<char>, lits: Seq<(Seq<char>, Seq<char>)>) -> bool {
    exists|k: int| 0 <= k < lits.len() && #[trigger] shape_matches(line, lits[k].0, lits[k].1)
}

/// The first configured pair, at or after position `k` of the list, that
/// matches the line. If a line matches more than one pair, the first
/// configured matching pair is authoritative: a tie-break policy, not an
/// error.
pub open spec fn first_match_from(
    line: Seq<char>,
    lits: Seq<(Seq<char>, Seq<char>)>,
    k: int,
) -> Option<int>
    decreases lits.len() - k,
{
    if k < 0 || k >= lits.len() {
        None
    } else if shape_matches(line, lits[k].0, lits[k].1) {
        Some(k)
    } else {
        first_match_from(line, lits, k + 1)
    }
}

/// The pair the parser works with on a matching line: the first configured
/// pair that matches it.
pub open spec fn selected_pair(line: Seq<char>, lits: Seq<(Seq<char>, Seq<char>)>) -> Option<
    int,
> {
    first_match_from(line, lits, 0)
}

/// Full characterization of [`first_match_from`]: the selected index is the
/// least one at or after `from` whose pair matches the line.
pub proof fn lemma_first_match_props(line: Seq<char>, lits: Seq<(Seq<char>, Seq<char>)>, from: int)
    requires
        0 <= from,
    ensures
        match first_match_from(line, lits, from) {
            Some(j) => from <= j < lits.len() && shape_matches(line, lits[j].0, lits[j].1)
                && forall|k: int|
                from <= k < j ==> !#[trigger] shape_matches(line, lits[k].0, lits[k].1),
            None => forall|k: int|
                from <= k < lits.len() ==> !#[trigger] shape_matches(line, lits[k].0, lits[k].1),
        },
    decreases lits.len() - from,
{
    if from < lits.len() && !shape_matches(line, lits[from].0, lits[from].1) {
        lemma_first_match_props(line, lits, from + 1);
    }
}

/// A matching line always selects a pair — the first configured one that
/// matches — and the selected pair's start literal occurs on the line.
pub proof fn lemma_match_selects(line: Seq<char>, lits: Seq<(Seq<char>, Seq<char>)>)
    requires
        any_pair_matches(line, lits),
    ensures
        selected_pair(line, lits) matches Some(q) && 0 <= q < lits.len() && shape_matches(
            line,
            lits[q].0,
            lits[q].1,
        ) && find_spec(line, lits[q].0, 0) is Some,
{
    lemma_first_match_props(line, lits, 0);
    let k = choose|k: int| 0 <= k < lits.len() && #[trigger] shape_matches(
        line,
        lits[k].0,
        lits[k].1,
    );
    if selected_pair(line, lits) is None {
        assert(!shape_matches(line, lits[k].0, lits[k].1));
    }
    let q = selected_pair(line, lits)->Some_0;
    let (i, c1, c2, e) = choose|i: int, c1: int, c2: int, e: int| #[trigger] shape_witness(
        line,
        lits[q].0,
        lits[q].1,
        i,
        c1,
        c2,
        e,
    );
    lemma_find_spec_complete(line, lits[q].0, 0, i);
}

/// Whether any configured pair matches `line`, and if so which pair the
/// parser selects, exactly as [`any_pair_matches`] and [`selected_pair`]
/// describe.
pub fn match_line(line: &str, lits: &Vec<(String, String)>) -> (r: Option<usize>)
    requires
        line@.len() + 2 <= usize::MAX,
    ensures
        any_pair_matches(line@, lit_views(lits@)) <==> r is Some,
        match r {
            Some(q) => selected_pair(line@, lit_views(lits@)) == Some(q as int) && q < lits@.len(),
            None => true,
        },
{
    let ghost lv = lit_views(lits@);
    let mut k: usize = 0;
    while k < lits.len()
        invariant
            0 <= k <= lits@.len(),
            lv == lit_views(lits@),
            line@.len() + 2 <= usize::MAX,
            first_match_from(line@, lv, 0) == first_match_from(line@, lv, k as int),
            forall|j: int| 0 <= j < k ==> !#[trigger] shape_matches(line@, lv[j].0, lv[j].1),
        decreases lits@.len() - k,
    {
        let pair = &lits[k];
        if line_matches_pair(line, pair.0.as_str(), pair.1.as_str()) {
            proof {
                assert(first_match_from(line@, lv, k as int) == Some(k as int));
                assert(shape_matches(line@, lv[k as int].0, lv[k as int].1));
                assert(any_pair_matches(line@, lv));
            }
            return Some(k);
        }
        proof {
            assert(first_match_from(line@, lv, k as int) == first_match_from(
                line@,
                lv,
                k + 1 as int,
            ));
        }
        k += 1;
    }
    proof {
        assert(first_match_from(line@, lv, k as int) is None);
        assert(!any_pair_matches(line@, lv));
    }
    None
}

} // verus!
