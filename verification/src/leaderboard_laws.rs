//! Properties of the leaderboard that hold for every list and every
//! submission.

use vstd::prelude::*;

use crate::leaderboard::{
    entries_or_empty, entry_total, insert_ranked, lemma_boards_map_lookup, ranked_after,
    sanitized_name, sort_by_score, top_entries, upper_letters, CategoryBoard, LeaderboardData,
    LeaderboardEntry, MAX_LEADERBOARD_ENTRIES,
};
use crate::text::{ascii_upper, is_ascii_alpha};

verus! {

broadcast use vstd::seq_lib::group_to_multiset_ensures;

/// The entries are in ascending order of score.
pub open spec fn sorted_by_score(s: Seq<LeaderboardEntry>) -> bool {
    forall|i: int, j: int| 0 <= i < j < s.len() ==> (#[trigger] s[i]).score <= (#[trigger] s[j]).score
}

proof fn lemma_insert_ranked(s: Seq<LeaderboardEntry>, e: LeaderboardEntry)
    requires
        sorted_by_score(s),
    ensures
        sorted_by_score(insert_ranked(s, e)),
        insert_ranked(s, e).to_multiset() =~= s.to_multiset().insert(e),
        insert_ranked(s, e).len() == s.len() + 1,
        forall|i: int|
            0 <= i < insert_ranked(s, e).len() ==> (#[trigger] insert_ranked(s, e)[i]).score
                <= if s.len() > 0 && s.last().score > e.score {
                s.last().score
            } else {
                e.score
            },
    decreases s.len(),
{
    if s.len() == 0 {
        assert(insert_ranked(s, e) =~= seq![e]);
        assert(seq![e] =~= Seq::<LeaderboardEntry>::empty().push(e));
    } else if s.last().score <= e.score {
        let t = s.push(e);
        assert forall|i: int, j: int| 0 <= i < j < t.len() implies (#[trigger] t[i]).score <= (#[trigger] t[j]).score by {
            if j == s.len() {
                assert(t[i] == s[i]);
                if i < s.len() - 1 {
                    assert(s[i].score <= s[s.len() - 1].score);
                }
            } else {
                assert(t[i] == s[i] && t[j] == s[j]);
            }
        }
        assert forall|i: int| 0 <= i < t.len() implies (#[trigger] t[i]).score <= e.score by {
            if i < s.len() {
                assert(t[i] == s[i]);
                if i < s.len() - 1 {
                    assert(s[i].score <= s[s.len() - 1].score);
                }
            }
        }
    } else {
        let d = s.drop_last();
        assert forall|i: int, j: int| 0 <= i < j < d.len() implies (#[trigger] d[i]).score <= (#[trigger] d[j]).score by {
            assert(d[i] == s[i] && d[j] == s[j]);
        }
        lemma_insert_ranked(d, e);
        let u = insert_ranked(d, e);
        let t = u.push(s.last());
        assert(t == insert_ranked(s, e));
        let bound = if d.len() > 0 && d.last().score > e.score {
            d.last().score
        } else {
            e.score
        };
        if d.len() > 0 {
            assert(d.last() == s[s.len() - 2]);
            assert(d.last().score <= s.last().score);
        }
        assert forall|i: int, j: int| 0 <= i < j < t.len() implies (#[trigger] t[i]).score <= (#[trigger] t[j]).score by {
            if j == u.len() {
                assert(u[i].score <= bound);
            } else {
                assert(t[i] == u[i] && t[j] == u[j]);
            }
        }
        assert forall|i: int| 0 <= i < t.len() implies (#[trigger] t[i]).score <= s.last().score by {
            if i < u.len() {
                assert(u[i].score <= bound);
            }
        }
        assert(s == d.push(s.last()));
        assert(d.push(s.last()).to_multiset() =~= d.to_multiset().insert(s.last()));
        assert(u.push(s.last()).to_multiset() =~= u.to_multiset().insert(s.last()));
    }
}

/// Sorting by score yields a list in ascending order of score holding
/// exactly the same entries.
pub proof fn law_sort_by_score(s: Seq<LeaderboardEntry>)
    ensures
        sorted_by_score(sort_by_score(s)),
        sort_by_score(s).to_multiset() =~= s.to_multiset(),
        sort_by_score(s).len() == s.len(),
    decreases s.len(),
{
    if s.len() > 0 {
        let d = s.drop_last();
        law_sort_by_score(d);
        lemma_insert_ranked(sort_by_score(d), s.last());
        assert(s == d.push(s.last()));
        assert(d.push(s.last()).to_multiset() =~= d.to_multiset().insert(s.last()));
    }
}

/// After a submission the category's list is sorted by ascending score
/// (lower time is better) and holds at most ten entries, each of them
/// taken from the old list or the new entry.
pub proof fn law_ranked_list_is_sorted_and_bounded(list: Seq<LeaderboardEntry>, e: LeaderboardEntry)
    ensures
        sorted_by_score(ranked_after(list, e)),
        ranked_after(list, e).len() <= MAX_LEADERBOARD_ENTRIES,
        forall|x: LeaderboardEntry|
            #[trigger] ranked_after(list, e).contains(x) ==> list.contains(x) || x == e,
{
    let full = sort_by_score(list.push(e));
    law_sort_by_score(list.push(e));
    let r = ranked_after(list, e);
    assert forall|i: int, j: int| 0 <= i < j < r.len() implies (#[trigger] r[i]).score <= (#[trigger] r[j]).score by {
        assert(r[i] == full[i] && r[j] == full[j]);
    }
    assert forall|x: LeaderboardEntry| #[trigger] r.contains(x) implies list.contains(x) || x == e by {
        let k = choose|k: int| 0 <= k < r.len() && r[k] == x;
        assert(full[k] == x);
        assert(full.contains(x));
        assert(full.to_multiset().count(x) > 0);
        assert(list.push(e).contains(x));
        let m = choose|m: int| 0 <= m < list.push(e).len() && list.push(e)[m] == x;
        if m < list.len() {
            assert(list[m] == x);
        }
    }
}

/// A submission to a category with fewer than ten entries is kept: it
/// appears in the list that is stored and returned.
pub proof fn law_submission_kept_when_room(list: Seq<LeaderboardEntry>, e: LeaderboardEntry)
    requires
        list.len() < MAX_LEADERBOARD_ENTRIES,
    ensures
        ranked_after(list, e).contains(e),
        ranked_after(list, e).len() == list.len() + 1,
{
    let full = sort_by_score(list.push(e));
    law_sort_by_score(list.push(e));
    assert(list.push(e).to_multiset().count(e) > 0) by {
        assert(list.push(e)[list.len() as int] == e);
    }
    assert(full.to_multiset().count(e) > 0);
    assert(top_entries(full) == full);
}

/// After a submission, reading the category gives back exactly the list
/// that the submission returned.
pub proof fn law_read_after_submit(
    data: Map<Seq<char>, Seq<LeaderboardEntry>>,
    category: Seq<char>,
    e: LeaderboardEntry,
)
    ensures
        entries_or_empty(
            data.insert(category, ranked_after(entries_or_empty(data, category), e)),
            category,
        ) == ranked_after(entries_or_empty(data, category), e),
{
}

/// Submitting to one category leaves every other category as it was.
pub proof fn law_other_categories_untouched(
    data: Map<Seq<char>, Seq<LeaderboardEntry>>,
    category: Seq<char>,
    e: LeaderboardEntry,
    other: Seq<char>,
)
    requires
        other != category,
    ensures
        entries_or_empty(
            data.insert(category, ranked_after(entries_or_empty(data, category), e)),
            other,
        ) == entries_or_empty(data, other),
{
}

proof fn lemma_upper_letters_fixed(s: Seq<char>)
    requires
        forall|i: int| 0 <= i < s.len() ==> is_ascii_alpha(#[trigger] s[i]) && ascii_upper(s[i]) == s[i],
    ensures
        upper_letters(s) == s,
    decreases s.len(),
{
    if s.len() > 0 {
        let d = s.drop_last();
        assert forall|i: int| 0 <= i < d.len() implies is_ascii_alpha(#[trigger] d[i]) && ascii_upper(d[i]) == d[i] by {
            assert(d[i] == s[i]);
        }
        lemma_upper_letters_fixed(d);
        assert(s =~= d.push(s.last()));
    }
}

proof fn lemma_upper_letters_shape(s: Seq<char>)
    ensures
        forall|i: int|
            0 <= i < upper_letters(s).len() ==> is_ascii_alpha(#[trigger] upper_letters(s)[i])
                && ascii_upper(upper_letters(s)[i]) == upper_letters(s)[i],
    decreases s.len(),
{
    if s.len() > 0 {
        lemma_upper_letters_shape(s.drop_last());
        let c = s.last();
        if is_ascii_alpha(c) {
            let u = ascii_upper(c);
            if 'a' <= c && c <= 'z' {
                assert(u as int == c as int - 32);
            }
            assert('A' <= u && u <= 'Z');
            assert(ascii_upper(u) == u);
        }
        let prev = upper_letters(s.drop_last());
        let cur = upper_letters(s);
        assert forall|i: int| 0 <= i < cur.len() implies is_ascii_alpha(#[trigger] cur[i]) && ascii_upper(cur[i]) == cur[i] by {
            if i < prev.len() {
                assert(cur[i] == prev[i]);
            }
        }
    }
}

/// A stored name is one to three upper-case ASCII letters, and
/// sanitising it again leaves it unchanged.
pub proof fn law_sanitized_name_is_stable(raw: Seq<char>)
    ensures
        1 <= sanitized_name(raw).len() <= 3,
        forall|i: int|
            0 <= i < sanitized_name(raw).len() ==> is_ascii_alpha(#[trigger] sanitized_name(raw)[i])
                && ascii_upper(sanitized_name(raw)[i]) == sanitized_name(raw)[i],
        sanitized_name(sanitized_name(raw)) == sanitized_name(raw),
{
    let n = sanitized_name(raw);
    reveal_strlit("AAA");
    lemma_upper_letters_shape(raw);
    assert forall|i: int| 0 <= i < n.len() implies is_ascii_alpha(#[trigger] n[i]) && ascii_upper(n[i]) == n[i] by {
        if upper_letters(raw).len() > 3 {
            assert(n[i] == upper_letters(raw)[i]);
        }
    }
    lemma_upper_letters_fixed(n);
}

proof fn lemma_total_prefix(a: Seq<CategoryBoard>, b: Seq<CategoryBoard>, n: int)
    requires
        n <= a.len(),
        n <= b.len(),
        forall|k: int| 0 <= k < n ==> a[k] == b[k],
    ensures
        entry_total(a, n) == entry_total(b, n),
    decreases n,
{
    if n > 0 {
        lemma_total_prefix(a, b, n - 1);
        assert(a[n - 1] == b[n - 1]);
    }
}

proof fn lemma_total_update(boards: Seq<CategoryBoard>, i: int, nb: CategoryBoard, n: int)
    requires
        0 <= i < boards.len(),
        n <= boards.len(),
    ensures
        entry_total(boards.update(i, nb), n) + (if 0 <= i < n {
            boards[i].entries@.len() as int
        } else {
            0int
        }) == entry_total(boards, n) + (if 0 <= i < n {
            nb.entries@.len() as int
        } else {
            0int
        }),
    decreases n,
{
    if n > 0 {
        lemma_total_update(boards, i, nb, n - 1);
        assert(boards.update(i, nb)[n - 1] == if n - 1 == i {
            nb
        } else {
            boards[n - 1]
        });
    }
}

/// Replacing the list of one category changes the entry count by the
/// difference of the two lists' lengths.
pub proof fn law_total_after_replacing(boards: Seq<CategoryBoard>, i: int, nb: CategoryBoard)
    requires
        0 <= i < boards.len(),
    ensures
        entry_total(boards.update(i, nb), boards.len() as int) + boards[i].entries@.len()
            == entry_total(boards, boards.len() as int) + nb.entries@.len(),
{
    lemma_total_update(boards, i, nb, boards.len() as int);
}

/// Adding a category adds the length of its list to the entry count.
pub proof fn law_total_after_adding(boards: Seq<CategoryBoard>, nb: CategoryBoard)
    ensures
        entry_total(boards.push(nb), boards.len() + 1int) == entry_total(boards, boards.len() as int)
            + nb.entries@.len(),
{
    lemma_total_prefix(boards.push(nb), boards, boards.len() as int);
}

proof fn lemma_total_bounds(boards: Seq<CategoryBoard>, n: int)
    requires
        0 <= n <= boards.len(),
    ensures
        forall|i: int| 0 <= i < n ==> (#[trigger] boards[i]).entries@.len() <= entry_total(boards, n),
        entry_total(boards, n) == 0 <==> forall|i: int|
            0 <= i < n ==> (#[trigger] boards[i]).entries@.len() == 0,
    decreases n,
{
    if n > 0 {
        lemma_total_bounds(boards, n - 1);
    }
}

/// Every category's list counts in full towards the entry count: no list
/// is longer than the count, and the count is zero exactly when every
/// list is empty.
pub proof fn law_total_counts_every_category(d: LeaderboardData)
    requires
        d.wf(),
    ensures
        forall|k: Seq<char>|
            #[trigger] d@.contains_key(k) ==> d@[k].len() <= entry_total(
                d.boards@,
                d.boards@.len() as int,
            ),
        entry_total(d.boards@, d.boards@.len() as int) == 0 <==> forall|k: Seq<char>|
            #[trigger] d@.contains_key(k) ==> d@[k].len() == 0,
{
    let b = d.boards@;
    let n = b.len() as int;
    lemma_boards_map_lookup(b, n);
    lemma_total_bounds(b, n);
    assert forall|k: Seq<char>| #[trigger] d@.contains_key(k) implies d@[k].len() <= entry_total(b, n) by {
        let i = choose|i: int| 0 <= i < n && (#[trigger] b[i]).category@ == k;
        assert(d@[b[i].category@] == b[i].entries@);
    }
    if forall|k: Seq<char>| #[trigger] d@.contains_key(k) ==> d@[k].len() == 0 {
        assert forall|i: int| 0 <= i < n implies (#[trigger] b[i]).entries@.len() == 0 by {
            assert(d@.contains_key(b[i].category@));
            assert(d@[b[i].category@] == b[i].entries@);
        }
    }
}

} // verus!
