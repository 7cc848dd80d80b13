//! The annotation parser: scans a file's content line by line, recognizes
//! annotation heads with the token grammar, validates their parameter lists,
//! captures context lines, and produces the file's items — or the first
//! structural error, which discards the whole file's parse.

use vstd::prelude::*;
use vstd::pervasive::unreached;

use crate::grammar::{any_pair_matches, comma, lemma_match_selects,
    lit_views, match_line, selected_pair, shape_matches};
use crate::text::{find_from, find_spec, is_match_at, lemma_find_spec_sound, parse_count,
    parse_count_spec, trim_spec, trim_str};
use crate::types::{ItemView, ToDoItem, item_views};

verus! {

/// Why a line that selected a pair failed structural validation. The first
/// two kinds guard the parser's defensive length and end-literal checks;
/// [`lemma_matched_head_is_well_formed`] proves that a line whose pair the
/// grammar selected never trips them, so a parse failure is always about
/// the parameter fields or the count.
#[derive(Debug, Clone, Copy, PartialEq, Eq, Structural)]
pub enum ParseErrorKind {
    /// The head, from the start literal onward, is shorter than the minimal
    /// valid length for its pair.
    TooShort,
    /// No end literal follows the start literal.
    MissingEnd,
    /// Fewer than three comma-separated parameter fields.
    MissingFields,
    /// The context-line-count field is not a non-negative integer that fits
    /// the machine.
    BadCount,
}

/// A structural violation of the annotation grammar; the parse of the whole
/// file is discarded.
#[derive(Debug, Clone, Copy, PartialEq, Eq, Structural)]
pub struct ParseError {
    /// Zero-based index of the offending line.
    pub line: u32,
    /// What was wrong with it.
    pub kind: ParseErrorKind,
}

/// Mathematical image of a [`ParseError`].
pub ghost struct ErrView {
    /// Zero-based index of the offending line.
    pub line: int,
    /// What was wrong with it.
    pub kind: ParseErrorKind,
}

/// The pieces extracted from one annotation head.
pub ghost struct StmtParts {
    /// First parameter field, trimmed.
    pub priority: Seq<char>,
    /// Second parameter field, trimmed.
    pub assignee: Seq<char>,
    /// Third parameter field read as a count.
    pub count: nat,
    /// Text after the end literal, trimmed.
    pub body: Seq<char>,
}

/// The shortest text that can hold a head of the pair `(s, t)`: the two
/// literals, three one-character fields and two separators.
pub open spec fn min_head_len(s: Seq<char>, t: Seq<char>) -> int {
    s.len() + t.len() + 5 as int
}

/// The first three comma-separated fields of a parameter list, or `None`
/// when there are fewer than three; fields past the third are ignored.
pub open spec fn split3(p: Seq<char>) -> Option<(Seq<char>, Seq<char>, Seq<char>)> {
    match find_spec(p, comma(), 0) {
        None => None,
        Some(j1) => match find_spec(p, comma(), j1 + 1) {
            None => None,
            Some(j2) => {
                let f2end = match find_spec(p, comma(), j2 + 1) {
                    None => p.len() as int,
                    Some(j3) => j3,
                };
                Some((p.take(j1), p.subrange(j1 + 1, j2), p.subrange(j2 + 1, f2end)))
            },
        },
    }
}

/// How one line that selected the pair `(s, t)` parses: locate the head at
/// the first occurrence of `s`, check its length, find the first following
/// end literal, split the text between the literals into parameter fields,
/// read the third as the context-line count, and take the text after the end
/// literal as the body.
pub open spec fn parse_stmt_spec(line: Seq<char>, s: Seq<char>, t: Seq<char>) -> Result<
    StmtParts,
    ParseErrorKind,
>
    recommends
        find_spec(line, s, 0) is Some,
{
    let i0 = find_spec(line, s, 0)->Some_0;
    let sub = line.skip(i0);
    if sub.len() < min_head_len(s, t) {
        Err(ParseErrorKind::TooShort)
    } else {
        match find_spec(sub, t, s.len() as int) {
            None => Err(ParseErrorKind::MissingEnd),
            Some(e0) => {
                let params = sub.subrange(s.len() as int, e0);
                match split3(params) {
                    None => Err(ParseErrorKind::MissingFields),
                    Some((f0, f1, f2)) => match parse_count_spec(trim_spec(f2)) {
                        None => Err(ParseErrorKind::BadCount),
                        Some(cnt) => Ok(
                            StmtParts {
                                priority: trim_spec(f0),
                                assignee: trim_spec(f1),
                                count: cnt,
                                body: trim_spec(sub.skip(e0 + t.len())),
                            },
                        ),
                    },
                }
            },
        }
    }
}

/// One line parsed against its selected pair, exactly as
/// [`parse_stmt_spec`] describes.
fn parse_stmt(line: &str, start: &str, end: &str) -> (r: Result<
    (String, String, usize, String),
    ParseErrorKind,
>)
    requires
        find_spec(line@, start@, 0) is Some,
        line@.len() + 2 <= usize::MAX,
    ensures
        ({
            let sr = parse_stmt_spec(line@, start@, end@);
            match r {
                Ok((prio, asg, cnt, body)) => sr matches Ok(p) && p.priority == prio@
                    && p.assignee == asg@ && p.count == cnt as nat && p.body == body@,
                Err(k) => sr == Err::<StmtParts, ParseErrorKind>(k),
            }
        }),
{
    let n = line.unicode_len();
    let sl = start.unicode_len();
    let tl = end.unicode_len();
    proof {
        lemma_find_spec_sound(line@, start@, 0);
    }
    let i0 = match find_from(line, start, 0) {
        Some(i0) => i0,
        None => unreached(),
    };
    let sub = line.substring_char(i0, n);
    proof {
        assert(sub@ =~= line@.skip(i0 as int));
    }
    let subn = n - i0;
    assert(subn == sub@.len());
    if subn - sl < tl || subn - sl - tl < 5 {
        return Err(ParseErrorKind::TooShort);
    }
    proof {
        lemma_find_spec_sound(sub@, end@, sl as int);
    }
    let e0 = match find_from(sub, end, sl) {
        Some(e0) => e0,
        None => {
            return Err(ParseErrorKind::MissingEnd);
        },
    };
    let params = sub.substring_char(sl, e0);
    proof {
        assert(params@ =~= sub@.subrange(sl as int, e0 as int));
        reveal_strlit(",");
        assert(","@ =~= comma());
    }
    let pn = params.unicode_len();
    let j1 = match find_from(params, ",", 0) {
        Some(j1) => j1,
        None => {
            return Err(ParseErrorKind::MissingFields);
        },
    };
    proof {
        lemma_find_spec_sound(params@, comma(), 0);
    }
    let j2 = match find_from(params, ",", j1 + 1) {
        Some(j2) => j2,
        None => {
            return Err(ParseErrorKind::MissingFields);
        },
    };
    proof {
        lemma_find_spec_sound(params@, comma(), j1 + 1 as int);
    }
    let f2end = match find_from(params, ",", j2 + 1) {
        Some(j3) => {
            proof {
                lemma_find_spec_sound(params@, comma(), j2 + 1 as int);
            }
            j3
        },
        None => pn,
    };
    proof {
        lemma_find_spec_sound(params@, comma(), j2 + 1 as int);
    }
    let f0 = trim_str(params.substring_char(0, j1));
    let f1 = trim_str(params.substring_char(j1 + 1, j2));
    let f2 = trim_str(params.substring_char(j2 + 1, f2end));
    proof {
        assert(params@.subrange(0, j1 as int) =~= params@.take(j1 as int));
    }
    let cnt = match parse_count(f2) {
        Some(cnt) => cnt,
        None => {
            return Err(ParseErrorKind::BadCount);
        },
    };
    let body = trim_str(sub.substring_char(e0 + tl, subn));
    proof {
        assert(sub@.subrange(e0 + tl as int, subn as int) =~= sub@.skip(e0 + tl as int));
    }
    Ok((f0.to_owned(), f1.to_owned(), cnt, body.to_owned()))
}

/// The lines of a file's content from character position `p` on: maximal
/// stretches free of `'\n'`, the terminator not included; content ending in
/// a terminator has no extra empty final line.
pub open spec fn lines_from(s: Seq<char>, p: int) -> Seq<Seq<char>>
    decreases s.len() - p,
    via lines_from_decreases
{
    if p < 0 || p >= s.len() {
        Seq::empty()
    } else {
        match find_spec(s, seq!['\n'], p) {
            None => seq![s.subrange(p, s.len() as int)],
            Some(j) => seq![s.subrange(p, j)] + lines_from(s, j + 1),
        }
    }
}

#[via_fn]
proof fn lines_from_decreases(s: Seq<char>, p: int) {
    if !(p < 0 || p >= s.len()) {
        lemma_find_spec_sound(s, seq!['\n'], p);
        if find_spec(s, seq!['\n'], p) is Some {
            let j = find_spec(s, seq!['\n'], p)->Some_0;
            assert(is_match_at(s, seq!['\n'], j));
        }
    }
}

/// The lines of a file's content.
pub open spec fn lines_spec(s: Seq<char>) -> Seq<Seq<char>> {
    lines_from(s, 0)
}

proof fn lemma_lines_from_bounds(s: Seq<char>, p: int)
    requires
        0 <= p <= s.len(),
    ensures
        lines_from(s, p).len() <= s.len() - p + 1,
        forall|i: int|
            0 <= i < lines_from(s, p).len() ==> (#[trigger] lines_from(s, p)[i]).len() <= s.len(),
    decreases s.len() - p,
{
    if p < s.len() {
        lemma_find_spec_sound(s, seq!['\n'], p);
        match find_spec(s, seq!['\n'], p) {
            None => {
                assert(lines_from(s, p)[0] == s.subrange(p, s.len() as int));
            },
            Some(j) => {
                assert(is_match_at(s, seq!['\n'], j));
                lemma_lines_from_bounds(s, j + 1);
                assert forall|i: int| 0 <= i < lines_from(s, p).len() implies (
                #[trigger] lines_from(s, p)[i]).len() <= s.len() by {
                    if i == 0 {
                        assert(lines_from(s, p)[0] == s.subrange(p, j));
                    } else {
                        assert(lines_from(s, p)[i] == lines_from(s, j + 1)[i - 1]);
                    }
                }
            },
        }
    }
}

/// The line count and each line's length are bounded by the content length.
pub proof fn lemma_lines_bounds(s: Seq<char>)
    ensures
        lines_spec(s).len() <= s.len() + 1,
        forall|i: int|
            0 <= i < lines_spec(s).len() ==> (#[trigger] lines_spec(s)[i]).len() <= s.len(),
{
    lemma_lines_from_bounds(s, 0);
}

/// The content split into its lines, exactly as [`lines_spec`] describes.
pub fn split_lines(content: &str) -> (r: Vec<String>)
    ensures
        r@.map_values(|l: String| l@) == lines_spec(content@),
{
    let ghost goal = lines_spec(content@);
    let n = content.unicode_len();
    let mut out: Vec<String> = Vec::new();
    let mut p: usize = 0;
    proof {
        reveal_strlit("\n");
        assert("\n"@ =~= seq!['\n']);
        assert(out@.map_values(|l: String| l@) + lines_from(content@, 0) =~= goal);
    }
    while p < n
        invariant
            0 <= p <= n,
            n == content@.len(),
            goal == lines_spec(content@),
            out@.map_values(|l: String| l@) + lines_from(content@, p as int) =~= goal,
        decreases n - p,
    {
        let ghost prev = out@.map_values(|l: String| l@);
        proof {
            reveal_strlit("\n");
            assert("\n"@ =~= seq!['\n']);
        }
        match find_from(content, "\n", p) {
            Some(j) => {
                proof {
                    lemma_find_spec_sound(content@, "\n"@, p as int);
                    assert(is_match_at(content@, "\n"@, j as int));
                }
                out.push(content.substring_char(p, j).to_owned());
                proof {
                    assert(out@.map_values(|l: String| l@) =~= prev.push(
                        content@.subrange(p as int, j as int),
                    ));
                    assert(out@.map_values(|l: String| l@) + lines_from(content@, j + 1 as int)
                        =~= goal);
                }
                p = j + 1;
            },
            None => {
                out.push(content.substring_char(p, n).to_owned());
                proof {
                    assert(out@.map_values(|l: String| l@) =~= prev.push(
                        content@.subrange(p as int, n as int),
                    ));
                    assert(out@.map_values(|l: String| l@) + lines_from(content@, n as int)
                        =~= goal);
                }
                p = n;
            },
        }
    }
    proof {
        assert(out@.map_values(|l: String| l@) =~= goal);
    }
    out
}

/// How a file parses from line `k` on: unmatched lines are skipped; a
/// matched line either fails validation — which fails the whole file — or
/// yields one item carrying the following `count` raw lines as context, with
/// the scan resuming after them.
pub open spec fn parse_from(
    lines: Seq<Seq<char>>,
    k: int,
    lits: Seq<(Seq<char>, Seq<char>)>,
    file: Seq<char>,
) -> Result<Seq<ItemView>, ErrView>
    decreases lines.len() - k,
{
    if k < 0 || k >= lines.len() {
        Ok(Seq::empty())
    } else {
        let line = trim_spec(lines[k]);
        if !any_pair_matches(line, lits) {
            parse_from(lines, k + 1, lits, file)
        } else {
            let q = selected_pair(line, lits)->Some_0;
            match parse_stmt_spec(line, lits[q].0, lits[q].1) {
                Err(kind) => Err(ErrView { line: k, kind }),
                Ok(parts) => {
                    let ctx_end = if k + 1 + parts.count > lines.len() {
                        lines.len() as int
                    } else {
                        k + 1 + parts.count
                    };
                    match parse_from(lines, ctx_end, lits, file) {
                        Err(e) => Err(e),
                        Ok(rest) => Ok(
                            seq![
                                ItemView {
                                    priority: parts.priority,
                                    body: parts.body,
                                    assignee: parts.assignee,
                                    context: lines.subrange(k + 1, ctx_end),
                                    file: file,
                                    line: k,
                                }
                            ] + rest,
                        ),
                    }
                },
            }
        }
    }
}

/// How a whole file's content parses: its lines, scanned from the first.
pub open spec fn parse_content_spec(
    content: Seq<char>,
    lits: Seq<(Seq<char>, Seq<char>)>,
    file: Seq<char>,
) -> Result<Seq<ItemView>, ErrView> {
    parse_from(lines_spec(content), 0, lits, file)
}

proof fn lemma_unmatched_from(
    lines: Seq<Seq<char>>,
    k: int,
    lits: Seq<(Seq<char>, Seq<char>)>,
    file: Seq<char>,
)
    requires
        0 <= k,
        forall|i: int|
            0 <= i < lines.len() ==> !any_pair_matches(trim_spec(#[trigger] lines[i]), lits),
    ensures
        parse_from(lines, k, lits, file) == Ok::<Seq<ItemView>, ErrView>(Seq::empty()),
    decreases lines.len() - k,
{
    if k < lines.len() {
        lemma_unmatched_from(lines, k + 1, lits, file);
    }
}

/// A file with zero matching annotations parses to the empty collection:
/// lines that match no configured pair never produce items, and never
/// produce errors either.
pub proof fn lemma_unmatched_content_is_empty(
    content: Seq<char>,
    lits: Seq<(Seq<char>, Seq<char>)>,
    file: Seq<char>,
)
    requires
        forall|k: int|
            0 <= k < lines_spec(content).len() ==> !any_pair_matches(
                trim_spec(#[trigger] lines_spec(content)[k]),
                lits,
            ),
    ensures
        parse_content_spec(content, lits, file) == Ok::<Seq<ItemView>, ErrView>(Seq::empty()),
{
    lemma_unmatched_from(lines_spec(content), 0, lits, file);
}

/// On a line that the pair `(s, t)` matches, the head — from the first
/// occurrence of `s` to the end of the line — is never shorter than the
/// minimal valid length, and an end literal always follows it: the
/// defensive length and end-literal checks of [`parse_stmt_spec`] cannot
/// fail for the pair the grammar selected, so a matched line fails only on
/// its parameter fields or its count.
pub proof fn lemma_matched_head_is_well_formed(line: Seq<char>, s: Seq<char>, t: Seq<char>)
    requires
        shape_matches(line, s, t),
    ensures
        find_spec(line, s, 0) matches Some(i0) && line.len() - i0 >= min_head_len(s, t)
            && find_spec(line.skip(i0), t, s.len() as int) is Some,
        parse_stmt_spec(line, s, t) != Err::<StmtParts, ParseErrorKind>(ParseErrorKind::TooShort),
        parse_stmt_spec(line, s, t) != Err::<StmtParts, ParseErrorKind>(
            ParseErrorKind::MissingEnd,
        ),
{
    crate::grammar::lemma_shape_greedy(line, s, t);
    let i0 = find_spec(line, s, 0)->Some_0;
    lemma_find_spec_sound(line, s, 0);
    assert(is_match_at(line, s, i0));
    let c1 = find_spec(line, comma(), i0 + s.len() + 1)->Some_0;
    lemma_find_spec_sound(line, comma(), i0 + s.len() + 1);
    let c2 = find_spec(line, comma(), c1 + 2)->Some_0;
    lemma_find_spec_sound(line, comma(), c1 + 2);
    let e = find_spec(line, t, c2 + 2)->Some_0;
    lemma_find_spec_sound(line, t, c2 + 2);
    assert(is_match_at(line, t, e));
    assert(e >= i0 + s.len() + 5);
    assert(line.len() - i0 >= min_head_len(s, t));
    let sub = line.skip(i0);
    assert(sub.subrange(e - i0, e - i0 + t.len() as int) =~= line.subrange(
        e,
        e + t.len() as int,
    ));
    assert(is_match_at(sub, t, e - i0));
    crate::text::lemma_find_spec_complete(sub, t, s.len() as int, e - i0);
}

/// A start occurrence that leaves a head shorter than the minimal valid
/// length for its pair never matches the grammar: such a line is skipped
/// for that pair rather than parsed, so — with that pair as the only
/// configured one — it contributes no item and no error.
pub proof fn lemma_short_head_never_matches(line: Seq<char>, s: Seq<char>, t: Seq<char>)
    requires
        find_spec(line, s, 0) matches Some(i0) && line.len() - i0 < min_head_len(s, t),
    ensures
        !shape_matches(line, s, t),
        !any_pair_matches(line, seq![(s, t)]),
{
    if shape_matches(line, s, t) {
        lemma_matched_head_is_well_formed(line, s, t);
    }
    assert forall|k: int| 0 <= k < 1 implies !#[trigger] shape_matches(
        line,
        seq![(s, t)][k].0,
        seq![(s, t)][k].1,
    ) by {
        assert(seq![(s, t)][0] == (s, t));
    }
}

/// Parameters for the parser.
pub struct ContentParserParams {
    /// The file (path) for todo item context.
    pub file: String,
    /// The literals for finding the tokens.
    pub literals: Vec<(String, String)>,
}

/// The parser: holds one file's content and the configuration, and parses
/// on demand.
pub struct ContentParser {
    content: String,
    params: ContentParserParams,
}

impl ContentParser {
    /// The content this parser reads.
    pub closed spec fn content_view(&self) -> Seq<char> {
        self.content@
    }

    /// The file path recorded in every produced item.
    pub closed spec fn file_view(&self) -> Seq<char> {
        self.params.file@
    }

    /// The configured literal pairs.
    pub closed spec fn literals_view(&self) -> Seq<(Seq<char>, Seq<char>)> {
        lit_views(self.params.literals@)
    }

    /// Creates a new parser struct over the given content with the given
    /// parameters.
    pub fn new(content: String, params: ContentParserParams) -> (r: ContentParser)
        ensures
            r.content_view() == content@,
            r.file_view() == params.file@,
            r.literals_view() == lit_views(params.literals@),
    {
        ContentParser { content, params }
    }

    /// Begins parsing the content. Returns all items of the file in scan
    /// order, or the first structural error, which discards the whole
    /// file's parse; exactly [`parse_content_spec`] over the parser's
    /// content, literals and file path.
    pub fn parse(&self) -> (r: Result<Vec<ToDoItem>, ParseError>)
        requires
            self.content_view().len() + 2 <= u32::MAX,
        ensures
            ({
                let sr = parse_content_spec(
                    self.content_view(),
                    self.literals_view(),
                    self.file_view(),
                );
                match r {
                    Ok(items) => sr matches Ok(m) && m == item_views(items@),
                    Err(e) => sr matches Err(ev) && ev.line == e.line as int && ev.kind == e.kind,
                }
            }),
    {
        let ghost lv = self.literals_view();
        let ghost file = self.file_view();
        let lines = split_lines(self.content.as_str());
        let ghost lseq = lines@.map_values(|l: String| l@);
        proof {
            lemma_lines_bounds(self.content_view());
        }
        let nlines = lines.len();
        let mut items: Vec<ToDoItem> = Vec::new();
        let mut k: usize = 0;
        proof {
            assert(item_views(items@) =~= Seq::<ItemView>::empty());
        }
        while k < nlines
            invariant
                0 <= k <= nlines,
                nlines == lines@.len(),
                lseq == lines@.map_values(|l: String| l@),
                lseq == lines_spec(self.content_view()),
                lv == self.literals_view(),
                file == self.file_view(),
                self.content_view().len() + 2 <= u32::MAX,
                lseq.len() <= self.content_view().len() + 1,
                forall|i: int| 0 <= i < lseq.len() ==> (#[trigger] lseq[i]).len()
                    <= self.content_view().len(),
                match parse_from(lseq, k as int, lv, file) {
                    Ok(rest) => parse_from(lseq, 0, lv, file) == Ok::<_, ErrView>(
                        item_views(items@) + rest,
                    ),
                    Err(e) => parse_from(lseq, 0, lv, file) == Err::<Seq<ItemView>, _>(e),
                },
            decreases nlines - k,
        {
            let ghost line_spec = trim_spec(lseq[k as int]);
            let line_t = trim_str(lines[k].as_str());
            proof {
                crate::text::lemma_trim_len(lines@[k as int]@);
            }
            match match_line(line_t, &self.params.literals) {
                None => {
                    k += 1;
                },
                Some(q) => {
                    proof {
                        lemma_match_selects(line_spec, lv);
                    }
                    let pair = &self.params.literals[q];
                    match parse_stmt(line_t, pair.0.as_str(), pair.1.as_str()) {
                        Err(kind) => {
                            return Err(ParseError { line: k as u32, kind });
                        },
                        Ok((prio, asg, cnt, body)) => {
                            let rem = nlines - (k + 1);
                            let take = if cnt > rem {
                                rem
                            } else {
                                cnt
                            };
                            let mut ctx: Vec<String> = Vec::new();
                            let mut j: usize = 0;
                            while j < take
                                invariant
                                    0 <= j <= take,
                                    k + 1 + take <= nlines,
                                    nlines == lines@.len(),
                                    ctx@.len() == j,
                                    forall|i: int| 0 <= i < j ==> ctx@[i] == lines@[k + 1 + i],
                                decreases take - j,
                            {
                                ctx.push(lines[k + 1 + j].clone());
                                j += 1;
                            }
                            let ghost prev_items = item_views(items@);
                            let item = ToDoItem {
                                priority: prio,
                                body,
                                assignee: asg,
                                context: ctx,
                                file: self.params.file.clone(),
                                line: k as u32,
                            };
                            proof {
                                let parts = parse_stmt_spec(line_spec, lv[selected_pair(
                                    line_spec,
                                    lv,
                                )->Some_0].0, lv[selected_pair(line_spec, lv)->Some_0].1)->Ok_0;
                                let ctx_end = k + 1 + take as int;
                                assert(item@.context =~= lseq.subrange(k + 1 as int, ctx_end));
                                assert(item@ == ItemView {
                                    priority: parts.priority,
                                    body: parts.body,
                                    assignee: parts.assignee,
                                    context: lseq.subrange(k + 1 as int, ctx_end),
                                    file: file,
                                    line: k as int,
                                });
                            }
                            items.push(item);
                            proof {
                                assert(item_views(items@) =~= prev_items.push(item@));
                                let rest = parse_from(lseq, k + 1 + take as int, lv, file);
                                if rest is Ok {
                                    assert(item_views(items@) + rest->Ok_0 =~= prev_items + (seq![
                                        item@
                                    ] + rest->Ok_0));
                                }
                            }
                            k = k + 1 + take;
                        },
                    }
                },
            }
        }
        proof {
            assert(item_views(items@) + Seq::<ItemView>::empty() =~= item_views(items@));
        }
        Ok(items)
    }
}

} // verus!
