//! Category counts and the ratio of theory to practice.
//!
//! Every event with at least two tokens carries a category, its second token,
//! whatever its verb is. The analysis counts the events of each category and
//! lists the categories by descending count; of two categories with the same
//! count, the one that the log names first comes first.

use crate::event_log::{events_of, EventLog};
use crate::models::{QueryData, QueryResult};
use crate::text::{split_whitespace, to_chars, tokens};
use vstd::prelude::*;
use vstd::string::*;

verus! {

/// The category whose count is the numerator of the ratio.
pub open spec fn theory() -> Seq<char> {
    seq!['T', 'H', 'E', 'O', 'R', 'Y']
}

/// The category whose count is the denominator of the ratio.
pub open spec fn practice() -> Seq<char> {
    seq!['P', 'R', 'A', 'C', 'T', 'I', 'C', 'E']
}

/// The lines that carry a category: those with at least two tokens.
pub open spec fn has_category() -> spec_fn(Seq<char>) -> bool {
    |line: Seq<char>| tokens(line).len() >= 2
}

/// The category of a line: its second token.
pub open spec fn category_of() -> spec_fn(Seq<char>) -> Seq<char> {
    |line: Seq<char>| tokens(line)[1]
}

/// The categories that `lines` carry, one for each line that has one, in the
/// order of the lines.
pub open spec fn categories_of(lines: Seq<Seq<char>>) -> Seq<Seq<char>> {
    lines.filter(has_category()).map_values(category_of())
}

/// The number of places in `cats` at which `c` stands.
pub open spec fn occurrences(cats: Seq<Seq<char>>, c: Seq<char>) -> nat
    decreases cats.len(),
{
    if cats.len() == 0 {
        0
    } else if cats.last() == c {
        occurrences(cats.drop_last(), c) + 1
    } else {
        occurrences(cats.drop_last(), c)
    }
}

/// The first place in `cats` at which `c` stands; `cats.len()` if there is
/// none.
pub open spec fn first_index(cats: Seq<Seq<char>>, c: Seq<char>) -> int
    decreases cats.len(),
{
    if cats.len() == 0 {
        0
    } else if first_index(cats.drop_last(), c) < cats.len() - 1 {
        first_index(cats.drop_last(), c)
    } else if cats.last() == c {
        cats.len() - 1
    } else {
        cats.len() as int
    }
}

/// Whether category `a` is listed before category `b`: it occurs more often,
/// or as often and earlier for the first time.
pub open spec fn ranks_before(cats: Seq<Seq<char>>, a: Seq<char>, b: Seq<char>) -> bool {
    ||| occurrences(cats, a) > occurrences(cats, b)
    ||| occurrences(cats, a) == occurrences(cats, b) && first_index(cats, a) < first_index(
        cats,
        b,
    )
}

/// A percentage, held exactly: `part` out of `whole`, which is
/// `100 * part / whole` percent, and 0 percent where `whole` is 0.
#[derive(Debug, Clone, Copy, PartialEq, Eq)]
pub struct Percentage {
    pub part: usize,
    pub whole: usize,
}

/// What a `CategoryCount` stands for.
pub ghost struct CategoryCountView {
    pub category: Seq<char>,
    pub count: nat,
    pub percentage: Percentage,
}

/// One category with the number of events that carry it, and the percentage
/// that this number is of all events that carry a category.
#[derive(Debug, Clone, PartialEq, Eq)]
pub struct CategoryCount {
    pub category: String,
    pub count: usize,
    pub percentage: Percentage,
}

impl View for CategoryCount {
    type V = CategoryCountView;

    open spec fn view(&self) -> CategoryCountView {
        CategoryCountView {
            category: self.category@,
            count: self.count as nat,
            percentage: self.percentage,
        }
    }
}

impl DeepView for CategoryCount {
    type V = CategoryCountView;

    open spec fn deep_view(&self) -> CategoryCountView {
        self@
    }
}

/// A ratio of two counts, held exactly: `numerator` to `denominator`.
#[derive(Debug, Clone, Copy, PartialEq, Eq)]
pub struct Ratio {
    pub numerator: usize,
    pub denominator: usize,
}

/// What a `RatioAnalysis` stands for.
pub ghost struct RatioAnalysisView {
    pub categories: Seq<CategoryCountView>,
    pub total_events: nat,
    pub theory_to_practice: Ratio,
}

/// The categories of a log by descending count, the number of events that
/// carry a category, and the ratio of theory to practice.
#[derive(Debug, Clone, PartialEq, Eq)]
pub struct RatioAnalysis {
    pub categories: Vec<CategoryCount>,
    pub total_events: usize,
    pub theory_to_practice: Ratio,
}

impl View for RatioAnalysis {
    type V = RatioAnalysisView;

    open spec fn view(&self) -> RatioAnalysisView {
        RatioAnalysisView {
            categories: self.categories.deep_view(),
            total_events: self.total_events as nat,
            theory_to_practice: self.theory_to_practice,
        }
    }
}

/// Whether `list` names exactly the categories in `names`, each once, with
/// the number of its occurrences in `cats` and the percentage that this number
/// is of the length of `cats`, in the order of `ranks_before`.
pub open spec fn lists(
    list: Seq<CategoryCountView>,
    cats: Seq<Seq<char>>,
    names: Set<Seq<char>>,
) -> bool {
    &&& forall|i: int|
        0 <= i < list.len() ==> {
            &&& names.contains((#[trigger] list[i]).category)
            &&& list[i].count == occurrences(cats, list[i].category)
            &&& list[i].percentage.part == list[i].count
            &&& list[i].percentage.whole == cats.len()
        }
    &&& forall|c: Seq<char>| #[trigger]
        names.contains(c) ==> exists|i: int| 0 <= i < list.len() && (#[trigger] list[i]).category == c
    &&& forall|i: int, j: int|
        0 <= i < j < list.len() ==> ranks_before(
            cats,
            (#[trigger] list[i]).category,
            (#[trigger] list[j]).category,
        )
}

/// Whether `list` is the ranking of the categories `cats`: it names each
/// category that occurs in `cats` once, with the number of its occurrences
/// and the percentage that this number is of all of `cats`, and a category
/// with a higher count stands before one with a lower count.
/// Of two categories with the same count, the one that occurs first in `cats`
/// stands first.
pub open spec fn is_ranking(list: Seq<CategoryCountView>, cats: Seq<Seq<char>>) -> bool {
    lists(list, cats, cats.to_set())
}

/// The sum of the counts in `list`.
pub open spec fn total_count(list: Seq<CategoryCountView>) -> nat
    decreases list.len(),
{
    if list.len() == 0 {
        0
    } else {
        total_count(list.drop_last()) + list.last().count
    }
}

/// The sum of the parts of the percentages in `list`.
pub open spec fn total_parts(list: Seq<CategoryCountView>) -> nat
    decreases list.len(),
{
    if list.len() == 0 {
        0
    } else {
        total_parts(list.drop_last()) + list.last().percentage.part as nat
    }
}

/// The ratio of theory to practice among `cats`: the number of `THEORY` over
/// the number of `PRACTICE`, with 1 in place of the latter where `PRACTICE`
/// does not occur.
pub open spec fn theory_to_practice(cats: Seq<Seq<char>>) -> (nat, nat) {
    (
        occurrences(cats, theory()),
        if cats.contains(practice()) {
            occurrences(cats, practice())
        } else {
            1
        },
    )
}

/// Whether `analysis` is the analysis of a log whose events are `lines`.
pub open spec fn is_analysis_of(analysis: RatioAnalysisView, lines: Seq<Seq<char>>) -> bool {
    &&& is_ranking(analysis.categories, categories_of(lines))
    &&& analysis.total_events == categories_of(lines).len()
    &&& analysis.theory_to_practice.numerator == theory_to_practice(categories_of(lines)).0
    &&& analysis.theory_to_practice.denominator == theory_to_practice(categories_of(lines)).1
}

/// The categories among the first `n + 1` lines are those among the first `n`
/// lines, and that of line `n` if it has one.
pub proof fn lemma_categories_step(lines: Seq<Seq<char>>, n: int)
    requires
        0 <= n < lines.len(),
    ensures
        categories_of(lines.take(n + 1)) == if tokens(lines[n]).len() >= 2 {
            categories_of(lines.take(n)).push(tokens(lines[n])[1])
        } else {
            categories_of(lines.take(n))
        },
{
    let head = lines.take(n);
    assert(lines.take(n + 1) =~= head.push(lines[n]));
    Seq::lemma_filter_push(head, lines[n], has_category());
    if tokens(lines[n]).len() >= 2 {
        Seq::lemma_push_map_commute(head.filter(has_category()), category_of(), lines[n]);
    }
}

/// `first_index(cats, c)` is the least place at which `c` stands in `cats`,
/// and `occurrences(cats, c)` is zero exactly if there is no such place.
pub proof fn lemma_first_index(cats: Seq<Seq<char>>, c: Seq<char>)
    ensures
        0 <= first_index(cats, c) <= cats.len(),
        first_index(cats, c) < cats.len() ==> cats[first_index(cats, c)] == c,
        forall|j: int| 0 <= j < first_index(cats, c) ==> #[trigger] cats[j] != c,
        first_index(cats, c) < cats.len() <==> cats.contains(c),
        occurrences(cats, c) > 0 <==> cats.contains(c),
        occurrences(cats, c) <= cats.len(),
    decreases cats.len(),
{
    if cats.len() > 0 {
        let head = cats.drop_last();
        lemma_first_index(head, c);
        let f = first_index(cats, c);
        assert forall|j: int| 0 <= j < f implies #[trigger] cats[j] != c by {
            if j < head.len() {
                assert(cats[j] == head[j]);
            }
        }
        if head.contains(c) {
            let j = choose|j: int| 0 <= j < head.len() && head[j] == c;
            assert(cats[j] == c);
        }
        if cats.contains(c) && !head.contains(c) {
            let j = choose|j: int| 0 <= j < cats.len() && cats[j] == c;
            if j < head.len() {
                assert(head[j] == c);
            }
        }
        if f < cats.len() {
            if f < head.len() {
                assert(cats[f] == head[f]);
            }
        }
    }
}

/// The counts of a ranking add up to the number of events that carry a
/// category. Each percentage is its count out of that number, so where there
/// is such an event at all, the percentages add up to 100.
pub proof fn lemma_counts_add_up(list: Seq<CategoryCountView>, cats: Seq<Seq<char>>)
    requires
        is_ranking(list, cats),
    ensures
        total_count(list) == cats.len(),
        total_parts(list) == cats.len(),
        forall|i: int| 0 <= i < list.len() ==> (#[trigger] list[i]).percentage.whole == cats.len(),
        cats.len() > 0 <==> list.len() > 0,
{
    lemma_counts_cover(list, cats, cats);
    lemma_parts_are_counts(list);
    if cats.len() > 0 {
        assert(cats.to_set().contains(cats[0]));
    }
    if list.len() > 0 {
        assert(cats.contains(list[0].category));
    }
}

/// The parts of the percentages in a ranking are its counts.
proof fn lemma_parts_are_counts(list: Seq<CategoryCountView>)
    requires
        forall|i: int| 0 <= i < list.len() ==> (#[trigger] list[i]).percentage.part == list[i].count,
    ensures
        total_parts(list) == total_count(list),
    decreases list.len(),
{
    if list.len() > 0 {
        let head = list.drop_last();
        assert forall|i: int| 0 <= i < head.len() implies (#[trigger] head[i]).percentage.part
            == head[i].count by {
            assert(head[i] == list[i]);
        }
        lemma_parts_are_counts(head);
    }
}

/// `cats` without the entries that equal `c`.
spec fn without(cats: Seq<Seq<char>>, c: Seq<char>) -> Seq<Seq<char>>
    decreases cats.len(),
{
    if cats.len() == 0 {
        cats
    } else if cats.last() == c {
        without(cats.drop_last(), c)
    } else {
        without(cats.drop_last(), c).push(cats.last())
    }
}

proof fn lemma_without(cats: Seq<Seq<char>>, c: Seq<char>)
    ensures
        without(cats, c).len() + occurrences(cats, c) == cats.len(),
        forall|d: Seq<char>|
            #![trigger without(cats, c).contains(d)]
            #![trigger cats.contains(d)]
            without(cats, c).contains(d) <==> (cats.contains(d) && d != c),
    decreases cats.len(),
{
    if cats.len() > 0 {
        let head = cats.drop_last();
        lemma_without(head, c);
        assert forall|d: Seq<char>|
            #![trigger without(cats, c).contains(d)]
            #![trigger cats.contains(d)]
            without(cats, c).contains(d) <==> (cats.contains(d) && d != c) by {
            if cats.contains(d) && d != c {
                let j = choose|j: int| 0 <= j < cats.len() && cats[j] == d;
                if j < head.len() {
                    assert(head[j] == d);
                    assert(head.contains(d));
                    let k = choose|k: int|
                        0 <= k < without(head, c).len() && without(head, c)[k] == d;
                    assert(without(cats, c)[k] == d);
                } else {
                    assert(without(cats, c).last() == d);
                }
            }
            if without(cats, c).contains(d) {
                let k = choose|k: int| 0 <= k < without(cats, c).len() && without(cats, c)[k] == d;
                if k < without(head, c).len() {
                    assert(without(head, c)[k] == d);
                    assert(without(head, c).contains(d));
                    let j = choose|j: int| 0 <= j < head.len() && head[j] == d;
                    assert(cats[j] == d);
                } else {
                    assert(cats[cats.len() - 1] == d);
                }
            }
        }
    }
}

/// If `list` names exactly the categories of `part`, each once, with the
/// number of its occurrences in `cats`, and `part` is `cats` without some of
/// its categories, then the counts of `list` add up to the length of `part`.
proof fn lemma_counts_cover(
    list: Seq<CategoryCountView>,
    cats: Seq<Seq<char>>,
    part: Seq<Seq<char>>,
)
    requires
        lists(list, cats, part.to_set()),
        forall|c: Seq<char>| #[trigger]
            part.contains(c) ==> occurrences(part, c) == occurrences(cats, c),
    ensures
        total_count(list) == part.len(),
    decreases list.len(),
{
    if list.len() == 0 {
        if part.len() > 0 {
            assert(part.to_set().contains(part[0]));
        }
    } else {
        let m = list.last().category;
        let rest = without(part, m);
        let head = list.drop_last();
        lemma_without(part, m);
        assert(part.contains(m));
        assert forall|c: Seq<char>| #[trigger] rest.contains(c) implies occurrences(rest, c)
            == occurrences(cats, c) by {
            lemma_occurrences_without(part, m, c);
        }
        assert forall|i: int| 0 <= i < head.len() implies rest.to_set().contains(
            (#[trigger] head[i]).category,
        ) && head[i].count == occurrences(cats, head[i].category) by {
            assert(head[i] == list[i]);
            assert(ranks_before(cats, list[i].category, list[list.len() - 1].category));
            assert(part.to_set().contains(list[i].category));
        }
        assert forall|c: Seq<char>| #[trigger] rest.to_set().contains(c) implies exists|i: int|
            0 <= i < head.len() && (#[trigger] head[i]).category == c by {
            assert(part.to_set().contains(c));
            let i = choose|i: int| 0 <= i < list.len() && (#[trigger] list[i]).category == c;
            assert(head[i] == list[i]);
        }
        assert forall|i: int, j: int| 0 <= i < j < head.len() implies ranks_before(
            cats,
            (#[trigger] head[i]).category,
            (#[trigger] head[j]).category,
        ) by {
            assert(head[i] == list[i] && head[j] == list[j]);
        }
        lemma_counts_cover(head, cats, rest);
    }
}

/// Leaving out the entries that equal `m` does not change how often any other
/// category occurs.
proof fn lemma_occurrences_without(cats: Seq<Seq<char>>, m: Seq<char>, c: Seq<char>)
    requires
        c != m,
    ensures
        occurrences(without(cats, m), c) == occurrences(cats, c),
    decreases cats.len(),
{
    if cats.len() > 0 {
        lemma_occurrences_without(cats.drop_last(), m, c);
        if cats.last() != m {
            assert(without(cats, m).drop_last() =~= without(cats.drop_last(), m));
        }
    }
}

/// The analysis is a function of the events: two rankings of the same
/// categories are the same list.
pub proof fn lemma_ranking_unique(
    a: Seq<CategoryCountView>,
    b: Seq<CategoryCountView>,
    cats: Seq<Seq<char>>,
)
    requires
        is_ranking(a, cats),
        is_ranking(b, cats),
    ensures
        a == b,
{
    lemma_lists_unique(a, b, cats, cats.to_set());
}

/// The analysis is a function of the log: two analyses of the same events are
/// the same.
pub proof fn lemma_analysis_idempotent(
    first: RatioAnalysis,
    second: RatioAnalysis,
    lines: Seq<Seq<char>>,
)
    requires
        is_analysis_of(first@, lines),
        is_analysis_of(second@, lines),
    ensures
        first@ == second@,
{
    lemma_ranking_unique(first@.categories, second@.categories, categories_of(lines));
}

proof fn lemma_lists_unique(
    a: Seq<CategoryCountView>,
    b: Seq<CategoryCountView>,
    cats: Seq<Seq<char>>,
    names: Set<Seq<char>>,
)
    requires
        lists(a, cats, names),
        lists(b, cats, names),
    ensures
        a == b,
    decreases a.len(),
{
    if a.len() == 0 {
        if b.len() > 0 {
            assert(names.contains(b[0].category));
        }
        assert(a =~= b);
    } else {
        let m = a[0].category;
        assert(names.contains(m));
        let j = choose|j: int| 0 <= j < b.len() && (#[trigger] b[j]).category == m;
        assert(names.contains(b[0].category));
        let i = choose|i: int| 0 <= i < a.len() && (#[trigger] a[i]).category == b[0].category;
        if b[0].category != m {
            assert(ranks_before(cats, b[0].category, b[j].category));
            assert(ranks_before(cats, a[0].category, a[i].category));
        }
        let rest = names.remove(m);
        let a1 = a.drop_first();
        let b1 = b.drop_first();
        lemma_lists_tail(a, cats, names);
        lemma_lists_tail(b, cats, names);
        lemma_lists_unique(a1, b1, cats, rest);
        assert(a =~= seq![a[0]] + a1);
        assert(b =~= seq![b[0]] + b1);
    }
}

/// Without its first entry, a list names the same categories but the first.
proof fn lemma_lists_tail(list: Seq<CategoryCountView>, cats: Seq<Seq<char>>, names: Set<Seq<char>>)
    requires
        lists(list, cats, names),
        list.len() > 0,
    ensures
        lists(list.drop_first(), cats, names.remove(list[0].category)),
{
    let m = list[0].category;
    let tail = list.drop_first();
    let rest = names.remove(m);
    assert forall|i: int| 0 <= i < tail.len() implies rest.contains((#[trigger] tail[i]).category)
        && tail[i].count == occurrences(cats, tail[i].category) by {
        assert(tail[i] == list[i + 1]);
        assert(ranks_before(cats, list[0].category, list[i + 1].category));
    }
    assert forall|c: Seq<char>| #[trigger] rest.contains(c) implies exists|i: int|
        0 <= i < tail.len() && (#[trigger] tail[i]).category == c by {
        assert(names.contains(c));
        let i = choose|i: int| 0 <= i < list.len() && (#[trigger] list[i]).category == c;
        assert(tail[i - 1] == list[i]);
    }
    assert forall|i: int, j: int| 0 <= i < j < tail.len() implies ranks_before(
        cats,
        (#[trigger] tail[i]).category,
        (#[trigger] tail[j]).category,
    ) by {
        assert(tail[i] == list[i + 1] && tail[j] == list[j + 1]);
    }
}

/// Whether `names` and `counts` tally the categories `cats`: each category of
/// `cats` stands once in `names`, in the order of first occurrence, and
/// `counts` holds the number of its occurrences at the same place.
spec fn tallies(names: Seq<Seq<char>>, counts: Seq<usize>, cats: Seq<Seq<char>>) -> bool {
    &&& names.len() == counts.len()
    &&& forall|i: int|
        0 <= i < names.len() ==> cats.contains(#[trigger] names[i]) && counts[i] == occurrences(
            cats,
            names[i],
        )
    &&& forall|c: Seq<char>| #[trigger] cats.contains(c) ==> names.contains(c)
    &&& forall|i: int, j: int|
        0 <= i < j < names.len() ==> first_index(cats, #[trigger] names[i]) < first_index(
            cats,
            #[trigger] names[j],
        )
}

/// Whether the place `i` stands in `order`.
spec fn holds_place(order: Seq<usize>, i: int) -> bool {
    exists|a: int| 0 <= a < order.len() && order[a] == i
}

/// Whether `order` holds each place of `counts` once, a place with a higher
/// count before one with a lower count, and of two places with the same count
/// the lower one first.
spec fn orders(order: Seq<usize>, counts: Seq<usize>) -> bool {
    &&& order.len() == counts.len()
    &&& forall|a: int| 0 <= a < order.len() ==> 0 <= #[trigger] order[a] < counts.len()
    &&& forall|i: int| 0 <= i < counts.len() ==> #[trigger] holds_place(order, i)
    &&& forall|a: int, b: int|
        0 <= a < b < order.len() ==> {
            let x = #[trigger] order[a] as int;
            let y = #[trigger] order[b] as int;
            counts[x] > counts[y] || (counts[x] == counts[y] && x < y)
        }
}

/// One more category `c` behind `cats` adds one to the occurrences of `c` and
/// leaves the first places of the categories of `cats` as they were.
proof fn lemma_push_category(cats: Seq<Seq<char>>, c: Seq<char>, d: Seq<char>)
    ensures
        occurrences(cats.push(c), d) == occurrences(cats, d) + if c == d {
            1nat
        } else {
            0nat
        },
        cats.contains(d) ==> first_index(cats.push(c), d) == first_index(cats, d),
        !cats.contains(d) && c == d ==> first_index(cats.push(c), d) == cats.len(),
        cats.push(c).contains(d) <==> cats.contains(d) || c == d,
{
    let more = cats.push(c);
    assert(more.drop_last() =~= cats);
    lemma_first_index(cats, d);
    if cats.contains(d) {
        let j = choose|j: int| 0 <= j < cats.len() && cats[j] == d;
        assert(more[j] == d);
    }
    if c == d {
        assert(more[cats.len() as int] == d);
    }
    if more.contains(d) {
        let j = choose|j: int| 0 <= j < more.len() && more[j] == d;
        if j < cats.len() {
            assert(cats[j] == d);
        }
    }
}

/// Counting one more event of a category that the tally names keeps the tally.
proof fn lemma_tally_bump(
    names: Seq<Seq<char>>,
    counts: Seq<usize>,
    cats: Seq<Seq<char>>,
    j: int,
)
    requires
        tallies(names, counts, cats),
        0 <= j < names.len(),
    ensures
        counts[j] < cats.len() + 1,
        counts[j] + 1 <= usize::MAX ==> tallies(
            names,
            counts.update(j, (counts[j] + 1) as usize),
            cats.push(names[j]),
        ),
{
    let c = names[j];
    let more = cats.push(c);
    let bumped = counts.update(j, (counts[j] + 1) as usize);
    lemma_first_index(cats, c);
    if counts[j] + 1 <= usize::MAX {
        assert forall|i: int| 0 <= i < names.len() implies more.contains(#[trigger] names[i])
            && bumped[i] == occurrences(more, names[i]) by {
            lemma_push_category(cats, c, names[i]);
            if i != j {
                if i < j {
                    assert(first_index(cats, names[i]) < first_index(cats, names[j]));
                } else {
                    assert(first_index(cats, names[j]) < first_index(cats, names[i]));
                }
            }
        }
        assert forall|d: Seq<char>| #[trigger] more.contains(d) implies names.contains(d) by {
            lemma_push_category(cats, c, d);
        }
        assert forall|i: int, k: int| 0 <= i < k < names.len() implies first_index(
            more,
            #[trigger] names[i],
        ) < first_index(more, #[trigger] names[k]) by {
            lemma_push_category(cats, c, names[i]);
            lemma_push_category(cats, c, names[k]);
        }
    }
}

/// The first event of a category that the tally does not name yet adds the
/// category at the end of the tally, with the count one.
proof fn lemma_tally_new(
    names: Seq<Seq<char>>,
    counts: Seq<usize>,
    cats: Seq<Seq<char>>,
    c: Seq<char>,
)
    requires
        tallies(names, counts, cats),
        !names.contains(c),
    ensures
        tallies(names.push(c), counts.push(1), cats.push(c)),
{
    let more = cats.push(c);
    let new_names = names.push(c);
    let new_counts = counts.push(1);
    lemma_first_index(cats, c);
    lemma_push_category(cats, c, c);
    assert forall|i: int| 0 <= i < new_names.len() implies more.contains(#[trigger] new_names[i])
        && new_counts[i] == occurrences(more, new_names[i]) by {
        lemma_push_category(cats, c, new_names[i]);
        if i < names.len() {
            assert(names.contains(names[i]));
        }
    }
    assert forall|d: Seq<char>| #[trigger] more.contains(d) implies new_names.contains(d) by {
        lemma_push_category(cats, c, d);
        if cats.contains(d) {
            let i = choose|i: int| 0 <= i < names.len() && names[i] == d;
            assert(new_names[i] == d);
        } else {
            assert(new_names[names.len() as int] == d);
        }
    }
    assert forall|i: int, k: int| 0 <= i < k < new_names.len() implies first_index(
        more,
        #[trigger] new_names[i],
    ) < first_index(more, #[trigger] new_names[k]) by {
        lemma_push_category(cats, c, new_names[i]);
        lemma_push_category(cats, c, new_names[k]);
        lemma_first_index(cats, new_names[i]);
    }
}

/// The place of `key` in `names`, if it stands there.
fn find_name(names: &Vec<String>, key: &String) -> (found: Option<usize>)
    ensures
        match found {
            Some(i) => i < names.len() && names[i as int]@ == key@,
            None => !names.deep_view().contains(key@),
        },
{
    let mut i: usize = 0;
    while i < names.len()
        invariant
            i <= names.len(),
            forall|k: int| 0 <= k < i ==> (#[trigger] names[k])@ != key@,
        decreases names.len() - i,
    {
        if names[i] == *key {
            return Some(i);
        }
        i += 1;
    }
    proof {
        let all = names.deep_view();
        if all.contains(key@) {
            let k = choose|k: int| 0 <= k < all.len() && all[k] == key@;
            assert(names[k]@ == key@);
        }
    }
    None
}

/// Counts the events of each category, the categories in the order in which
/// the log first names them, and the events that carry a category at all.
fn tally_categories(events: &Vec<String>) -> (tally: (Vec<String>, Vec<usize>, usize))
    ensures
        tallies(tally.0.deep_view(), tally.1@, categories_of(events.deep_view())),
        tally.2 == categories_of(events.deep_view()).len(),
{
    let ghost lines = events.deep_view();
    let mut names: Vec<String> = Vec::new();
    let mut counts: Vec<usize> = Vec::new();
    let mut total: usize = 0;
    let mut idx: usize = 0;
    proof {
        assert(lines.take(0) =~= Seq::<Seq<char>>::empty());
        assert(categories_of(lines.take(0)) =~= Seq::<Seq<char>>::empty());
    }
    while idx < events.len()
        invariant
            lines == events.deep_view(),
            idx <= events.len(),
            total == categories_of(lines.take(idx as int)).len(),
            total <= idx,
            names.len() == counts.len(),
            tallies(names.deep_view(), counts@, categories_of(lines.take(idx as int))),
        decreases events.len() - idx,
    {
        let ghost cats = categories_of(lines.take(idx as int));
        let ghost old_names = names.deep_view();
        proof {
            lemma_categories_step(lines, idx as int);
            assert(lines[idx as int] == events[idx as int]@);
        }
        let chars = to_chars(events[idx].as_str());
        let mut parts = split_whitespace(&chars);
        if parts.len() >= 2 {
            let ghost c = tokens(lines[idx as int])[1];
            proof {
                assert(parts.deep_view()[1] == parts[1]@);
            }
            match find_name(&names, &parts[1]) {
                Some(j) => {
                    proof {
                        assert(old_names[j as int] == names[j as int]@);
                        lemma_tally_bump(old_names, counts@, cats, j as int);
                    }
                    let more: usize = counts[j] + 1;
                    counts.set(j, more);
                },
                None => {
                    parts.truncate(2);
                    let name = parts.pop().unwrap();
                    proof {
                        lemma_tally_new(old_names, counts@, cats, c);
                    }
                    names.push(name);
                    counts.push(1);
                    proof {
                        assert(names.deep_view() =~= old_names.push(c));
                    }
                },
            }
            total += 1;
        }
        idx += 1;
    }
    proof {
        assert(lines.take(idx as int) =~= lines);
    }
    (names, counts, total)
}

/// The places of `counts` by descending count; of two places with the same
/// count the lower one first.
fn rank_order(counts: &Vec<usize>) -> (order: Vec<usize>)
    ensures
        orders(order@, counts@),
{
    let mut order: Vec<usize> = Vec::new();
    let mut k: usize = 0;
    while k < counts.len()
        invariant
            k <= counts.len(),
            order.len() == k,
            forall|a: int| 0 <= a < order.len() ==> 0 <= #[trigger] order[a] < k,
            forall|i: int| 0 <= i < k ==> #[trigger] holds_place(order@, i),
            forall|a: int, b: int|
                0 <= a < b < order.len() ==> {
                    let x = #[trigger] order[a] as int;
                    let y = #[trigger] order[b] as int;
                    counts[x] > counts[y] || (counts[x] == counts[y] && x < y)
                },
        decreases counts.len() - k,
    {
        let mut p: usize = 0;
        while p < order.len() && counts[order[p]] >= counts[k]
            invariant
                k < counts.len(),
                order.len() == k,
                p <= order.len(),
                forall|a: int| 0 <= a < order.len() ==> 0 <= #[trigger] order[a] < k,
                forall|a: int| 0 <= a < p ==> counts[#[trigger] order[a] as int] >= counts[k as int],
            decreases order.len() - p,
        {
            p += 1;
        }
        let ghost before = order@;
        order.insert(p, k);
        proof {
            assert forall|i: int| 0 <= i < k + 1 implies #[trigger] holds_place(order@, i) by {
                if i < k {
                    assert(holds_place(before, i));
                    let a = choose|a: int| 0 <= a < before.len() && before[a] == i;
                    if a < p {
                        assert(order@[a] == i);
                    } else {
                        assert(order@[a + 1] == i);
                    }
                } else {
                    assert(order@[p as int] == i);
                }
            }
            assert forall|a: int, b: int| 0 <= a < b < order.len() implies {
                let x = #[trigger] order[a] as int;
                let y = #[trigger] order[b] as int;
                counts[x] > counts[y] || (counts[x] == counts[y] && x < y)
            } by {
                let x = order[a] as int;
                let y = order[b] as int;
                if b < p {
                    assert(x == before[a] && y == before[b]);
                } else if b == p {
                    assert(x == before[a]);
                } else if a < p {
                    assert(x == before[a] && y == before[b - 1]);
                } else if a == p {
                    assert(y == before[b - 1]);
                    if b - 1 > p {
                        assert(counts[before[p as int] as int] >= counts[before[b - 1] as int]);
                    }
                } else {
                    assert(x == before[a - 1] && y == before[b - 1]);
                }
            }
        }
        k += 1;
    }
    order
}

/// Reads category counts off the log it was made for.
pub struct RatioAnalyzer {
    log: EventLog,
}

impl View for RatioAnalyzer {
    type V = Seq<char>;

    /// The text of the log that the analyzer reads.
    closed spec fn view(&self) -> Seq<char> {
        self.log@
    }
}

impl RatioAnalyzer {
    /// An analyzer for the log as it is now.
    pub fn new(log: &EventLog) -> (analyzer: Self)
        ensures
            analyzer@ == log@,
    {
        RatioAnalyzer { log: log.snapshot() }
    }

    /// The analysis of the log, as the result of the query `ratios`.
    pub fn analyze(&self) -> (result: QueryResult)
        ensures
            result.query@ == "ratios"@,
            result.result_type@ == "analysis"@,
            result.data matches QueryData::Analysis(analysis) && is_analysis_of(
                analysis@,
                events_of(self@),
            ),
    {
        let events = self.log.read_all();
        let analysis = analyze_events(&events);
        QueryResult {
            query: "ratios".to_string(),
            result_type: "analysis".to_string(),
            data: QueryData::Analysis(analysis),
        }
    }
}

/// The analysis of a log whose events are `events`.
pub fn analyze_events(events: &Vec<String>) -> (analysis: RatioAnalysis)
    ensures
        is_analysis_of(analysis@, events.deep_view()),
{
    let ghost cats = categories_of(events.deep_view());
    let (names, counts, total) = tally_categories(events);
    let order = rank_order(&counts);
    let ghost tally = names.deep_view();
    let mut categories: Vec<CategoryCount> = Vec::new();
    let mut a: usize = 0;
    while a < order.len()
        invariant
            a <= order.len(),
            orders(order@, counts@),
            names.len() == counts.len(),
            tally == names.deep_view(),
            categories.len() == a,
            forall|i: int|
                0 <= i < a ==> (#[trigger] categories[i])@ == (CategoryCountView {
                    category: tally[order[i] as int],
                    count: counts[order[i] as int] as nat,
                    percentage: Percentage { part: counts[order[i] as int], whole: total },
                }),
        decreases order.len() - a,
    {
        let at: usize = order[a];
        categories.push(
            CategoryCount {
                category: names[at].clone(),
                count: counts[at],
                percentage: Percentage { part: counts[at], whole: total },
            },
        );
        a += 1;
    }
    let theory_key = "THEORY".to_string();
    let practice_key = "PRACTICE".to_string();
    proof {
        reveal_strlit("THEORY");
        reveal_strlit("PRACTICE");
        assert(theory_key@ =~= theory());
        assert(practice_key@ =~= practice());
    }
    let numerator: usize = match find_name(&names, &theory_key) {
        Some(i) => {
            assert(tally[i as int] == theory());
            counts[i]
        },
        None => 0,
    };
    let denominator: usize = match find_name(&names, &practice_key) {
        Some(i) => {
            assert(tally[i as int] == practice());
            counts[i]
        },
        None => 1,
    };
    proof {
        lemma_first_index(cats, theory());
        lemma_first_index(cats, practice());
        let list = categories.deep_view();
        assert forall|i: int| 0 <= i < list.len() implies #[trigger] list[i] == (
        CategoryCountView {
            category: tally[order[i] as int],
            count: counts[order[i] as int] as nat,
            percentage: Percentage { part: counts[order[i] as int], whole: total },
        }) by {
            assert(list[i] == categories[i]@);
        }
        lemma_ranked_tally(list, tally, counts@, order@, cats);
        assert(numerator == occurrences(cats, theory()));
        assert(denominator == theory_to_practice(cats).1);
    }
    RatioAnalysis {
        categories,
        total_events: total,
        theory_to_practice: Ratio { numerator, denominator },
    }
}

/// The entries of a tally, taken in the order of their counts, are the
/// ranking of the categories.
proof fn lemma_ranked_tally(
    list: Seq<CategoryCountView>,
    names: Seq<Seq<char>>,
    counts: Seq<usize>,
    order: Seq<usize>,
    cats: Seq<Seq<char>>,
)
    requires
        tallies(names, counts, cats),
        orders(order, counts),
        list.len() == order.len(),
        forall|i: int|
            0 <= i < list.len() ==> #[trigger] list[i] == (CategoryCountView {
                category: names[order[i] as int],
                count: counts[order[i] as int] as nat,
                percentage: Percentage {
                    part: counts[order[i] as int],
                    whole: cats.len() as usize,
                },
            }),
        cats.len() <= usize::MAX,
    ensures
        is_ranking(list, cats),
{
    assert forall|c: Seq<char>| #[trigger] cats.to_set().contains(c) implies exists|i: int|
        0 <= i < list.len() && (#[trigger] list[i]).category == c by {
        assert(cats.contains(c));
        assert(names.contains(c));
        let at = choose|at: int| 0 <= at < names.len() && names[at] == c;
        assert(holds_place(order, at));
        let i = choose|i: int| 0 <= i < order.len() && order[i] == at;
        assert(list[i].category == c);
    }
    assert forall|i: int, j: int| 0 <= i < j < list.len() implies ranks_before(
        cats,
        (#[trigger] list[i]).category,
        (#[trigger] list[j]).category,
    ) by {
        let x = order[i] as int;
        let y = order[j] as int;
        assert(counts[x] > counts[y] || (counts[x] == counts[y] && x < y));
    }
}

} // verus!
