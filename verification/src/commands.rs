//! The pipeline over already-read file contents: apply the path filter to
//! every file, parse the eligible ones, aggregate their items, and sort the
//! collection by priority. The surrounding program crawls the tree, reads
//! the files and runs workers concurrently; the items any run produces are
//! exactly the ones this sequential pipeline describes.

use vstd::prelude::*;

use crate::grammar::lit_views;
use crate::matcher::{MatchError, PathMatcher, regex_gives_up, regex_match};
use crate::parser::{ContentParser, ContentParserParams, parse_content_spec};
use crate::sort::{distinct_priorities, lemma_sorted_unique, sort_items, sorted_by_priority};
use crate::types::{ItemView, ToDoItem, item_views};

verus! {

/// The views of a list of (path, content) pairs.
pub open spec fn file_views(files: Seq<(String, String)>) -> Seq<(Seq<char>, Seq<char>)> {
    files.map_values(|f: (String, String)| (f.0@, f.1@))
}

/// What one file contributes to the run: nothing when the filter excludes
/// its path or its parse fails; its items, in scan order, otherwise.
pub open spec fn file_items(
    file: (Seq<char>, Seq<char>),
    pattern: Seq<char>,
    lits: Seq<(Seq<char>, Seq<char>)>,
) -> Seq<ItemView> {
    if regex_match(pattern, file.0) {
        match parse_content_spec(file.1, lits, file.0) {
            Ok(items) => items,
            Err(_) => Seq::empty(),
        }
    } else {
        Seq::empty()
    }
}

/// The items the files from index `k` on contribute, in file order.
pub open spec fn collect_from(
    files: Seq<(Seq<char>, Seq<char>)>,
    k: int,
    pattern: Seq<char>,
    lits: Seq<(Seq<char>, Seq<char>)>,
) -> Seq<ItemView>
    decreases files.len() - k,
{
    if k < 0 || k >= files.len() {
        Seq::empty()
    } else {
        file_items(files[k], pattern, lits) + collect_from(files, k + 1, pattern, lits)
    }
}

/// The items a run over the given files produces, before the final sort.
pub open spec fn collect_spec(
    files: Seq<(Seq<char>, Seq<char>)>,
    pattern: Seq<char>,
    lits: Seq<(Seq<char>, Seq<char>)>,
) -> Seq<ItemView> {
    collect_from(files, 0, pattern, lits)
}

fn clone_string_pairs(l: &Vec<(String, String)>) -> (r: Vec<(String, String)>)
    ensures
        r@ == l@,
{
    let mut r: Vec<(String, String)> = Vec::new();
    let mut i: usize = 0;
    while i < l.len()
        invariant
            0 <= i <= l@.len(),
            r@.len() == i,
            forall|k: int| 0 <= k < i ==> r@[k] == l@[k],
        decreases l@.len() - i,
    {
        let p = &l[i];
        r.push((p.0.clone(), p.1.clone()));
        i += 1;
    }
    proof {
        assert(r@ =~= l@);
    }
    r
}

/// Function to collect the todo items of a tree of files whose contents
/// have been read: every file whose path the filter matches is parsed, the
/// items of all successfully parsed files are aggregated, and the
/// collection is sorted by priority. Files the filter excludes, and files
/// whose parse fails, contribute nothing; `Err` exactly when the regex
/// engine gives up on some file's path, which aborts the run.
pub fn collect(files: Vec<(String, String)>, matcher: &PathMatcher, literals: &Vec<(String, String)>) -> (r:
    Result<Vec<ToDoItem>, MatchError>)
    requires
        forall|i: int| 0 <= i < files@.len() ==> (#[trigger] files@[i].1)@.len() + 2
            <= u32::MAX,
    ensures
        r matches Ok(v) ==> sorted_by_priority(item_views(v@)) && item_views(v@).to_multiset()
            == collect_spec(
            file_views(files@),
            matcher.pattern_view(),
            lit_views(literals@),
        ).to_multiset(),
        r is Err ==> exists|i: int|
            0 <= i < files@.len() && #[trigger] regex_gives_up(
                matcher.pattern_view(),
                files@[i].0@,
            ),
        (forall|i: int|
            0 <= i < files@.len() ==> !#[trigger] regex_gives_up(
                matcher.pattern_view(),
                files@[i].0@,
            )) ==> r is Ok,
{
    let ghost fvs = file_views(files@);
    let ghost pattern = matcher.pattern_view();
    let ghost lv = lit_views(literals@);
    let mut acc: Vec<ToDoItem> = Vec::new();
    let mut i: usize = 0;
    let nfiles = files.len();
    proof {
        assert(item_views(acc@) + collect_from(fvs, 0, pattern, lv) =~= collect_spec(
            fvs,
            pattern,
            lv,
        ));
    }
    while i < nfiles
        invariant
            0 <= i <= nfiles,
            nfiles == files@.len(),
            fvs == file_views(files@),
            pattern == matcher.pattern_view(),
            lv == lit_views(literals@),
            forall|k: int| 0 <= k < files@.len() ==> (#[trigger] files@[k].1)@.len() + 2
                <= u32::MAX,
            item_views(acc@) + collect_from(fvs, i as int, pattern, lv) == collect_spec(
                fvs,
                pattern,
                lv,
            ),
        decreases nfiles - i,
    {
        let ghost acc_pre = item_views(acc@);
        let file = &files[i];
        let eligible = match matcher.matches(file.0.as_str()) {
            Ok(b) => b,
            Err(e) => {
                return Err(e);
            },
        };
        if eligible {
            let parser = ContentParser::new(
                file.1.clone(),
                ContentParserParams { file: file.0.clone(), literals: clone_string_pairs(literals) },
            );
            match parser.parse() {
                Ok(mut items) => {
                    let ghost got = item_views(items@);
                    proof {
                        assert(got == file_items(fvs[i as int], pattern, lv));
                    }
                    acc.append(&mut items);
                    proof {
                        assert(item_views(acc@) =~= acc_pre + got);
                        assert(item_views(acc@) + collect_from(fvs, i + 1 as int, pattern, lv)
                            =~= (acc_pre + (got + collect_from(fvs, i + 1 as int, pattern, lv))));
                    }
                },
                Err(_) => {
                    proof {
                        assert(file_items(fvs[i as int], pattern, lv) =~= Seq::<ItemView>::empty());
                        assert(acc_pre + Seq::<ItemView>::empty() =~= acc_pre);
                    }
                },
            }
        } else {
            proof {
                assert(file_items(fvs[i as int], pattern, lv) =~= Seq::<ItemView>::empty());
                assert(acc_pre + Seq::<ItemView>::empty() =~= acc_pre);
            }
        }
        i += 1;
    }
    proof {
        assert(item_views(acc@) + Seq::<ItemView>::empty() =~= item_views(acc@));
    }
    sort_items(&mut acc);
    Ok(acc)
}

/// A tree with one file the filter matches and one it excludes yields items
/// only from the matched file, whichever of the two is visited first.
pub proof fn lemma_filter_selects(
    f: (Seq<char>, Seq<char>),
    g: (Seq<char>, Seq<char>),
    pattern: Seq<char>,
    lits: Seq<(Seq<char>, Seq<char>)>,
)
    requires
        regex_match(pattern, f.0),
        !regex_match(pattern, g.0),
    ensures
        collect_spec(seq![f, g], pattern, lits) == collect_spec(seq![g, f], pattern, lits),
        collect_spec(seq![f, g], pattern, lits) == file_items(f, pattern, lits),
{
    let fg = seq![f, g];
    let gf = seq![g, f];
    assert(collect_from(fg, 2, pattern, lits) =~= Seq::<ItemView>::empty());
    assert(collect_from(gf, 2, pattern, lits) =~= Seq::<ItemView>::empty());
    assert(file_items(g, pattern, lits) =~= Seq::<ItemView>::empty());
    assert(collect_from(fg, 1, pattern, lits) =~= Seq::<ItemView>::empty());
    assert(collect_from(gf, 1, pattern, lits) =~= file_items(f, pattern, lits));
    assert(collect_spec(fg, pattern, lits) =~= file_items(f, pattern, lits));
    assert(collect_spec(gf, pattern, lits) =~= file_items(f, pattern, lits));
}

/// A file whose parse fails contributes nothing to the run, even when the
/// filter matches it: its items are discarded as a whole.
pub proof fn lemma_failing_file_yields_nothing(
    f: (Seq<char>, Seq<char>),
    pattern: Seq<char>,
    lits: Seq<(Seq<char>, Seq<char>)>,
)
    requires
        parse_content_spec(f.1, lits, f.0) is Err,
    ensures
        collect_spec(seq![f], pattern, lits) == Seq::<ItemView>::empty(),
{
    assert(collect_from(seq![f], 1, pattern, lits) =~= Seq::<ItemView>::empty());
    assert(file_items(f, pattern, lits) =~= Seq::<ItemView>::empty());
    assert(collect_spec(seq![f], pattern, lits) =~= Seq::<ItemView>::empty());
}

/// Two runs over the same file tree agree: any two sorted collections that
/// both hold, as multisets, exactly what the tree's files contribute — as a
/// run with one worker and a run with many both do — are equal sequences,
/// as long as priorities are pairwise distinct; however the workers
/// interleave, the sorted output is the same.
pub proof fn lemma_runs_agree(
    r1: Seq<ItemView>,
    r2: Seq<ItemView>,
    files: Seq<(Seq<char>, Seq<char>)>,
    pattern: Seq<char>,
    lits: Seq<(Seq<char>, Seq<char>)>,
)
    requires
        sorted_by_priority(r1),
        sorted_by_priority(r2),
        r1.to_multiset() == collect_spec(files, pattern, lits).to_multiset(),
        r2.to_multiset() == collect_spec(files, pattern, lits).to_multiset(),
        distinct_priorities(r1),
    ensures
        r1 == r2,
{
    lemma_sorted_unique(r1, r2);
}

} // verus!
