//! The leaderboard: per-category lists of the best times, the
//! sanitising of player names, and the ranking of a submitted score.

use vstd::prelude::*;

use crate::leaderboard_laws::{
    law_submission_kept_when_room, law_total_after_adding, law_total_after_replacing,
};
use crate::text::{
    ascii_upper, chars_equal, chars_of, has_suffix, is_alpha, is_ascii_alpha, opt_view,
    string_from_chars, upper_char,
};

verus! {

/// Longest player name kept, in letters.
pub const MAX_PLAYER_NAME_CHARS: usize = 3;

/// Most entries kept per category.
pub const MAX_LEADERBOARD_ENTRIES: usize = 10;

/// One row in the leaderboard.
#[derive(Clone, Debug)]
pub struct LeaderboardEntry {
    /// Player-chosen display name; sanitised server-side.
    pub name: String,
    /// Time elapsed in tenths of a second, lower = better.
    pub score: u32,
    /// Rfc3339 timestamp taken when the score was submitted.
    pub date: String,
}

/// Query of the leaderboard read endpoint.
pub struct GetParams {
    pub category: Option<String>,
}

/// Body of the leaderboard submit endpoint.
#[derive(Clone, Debug)]
pub struct SubmitRequest {
    pub name: String,
    pub score: u32,
    pub category: String,
}

/// The entries of one category.
pub struct CategoryBoard {
    pub category: String,
    pub entries: Vec<LeaderboardEntry>,
}

/// All categories of the leaderboard, each listed once.
pub struct LeaderboardData {
    pub boards: Vec<CategoryBoard>,
}

impl LeaderboardEntry {
    /// A copy of the entry.
    pub fn duplicate(&self) -> (r: Self)
        ensures
            r == *self,
    {
        LeaderboardEntry { name: self.name.clone(), score: self.score, date: self.date.clone() }
    }
}

/// The ASCII letters of `s`, upper-cased, in order.
pub open spec fn upper_letters(s: Seq<char>) -> Seq<char>
    decreases s.len(),
{
    if s.len() == 0 {
        seq![]
    } else {
        let prev = upper_letters(s.drop_last());
        if is_ascii_alpha(s.last()) {
            prev.push(ascii_upper(s.last()))
        } else {
            prev
        }
    }
}

/// The stored form of a player name: its first three ASCII letters,
/// upper-cased, or `AAA` when it has none.
pub open spec fn sanitized_name(raw: Seq<char>) -> Seq<char> {
    let letters = upper_letters(raw);
    if letters.len() == 0 {
        "AAA"@
    } else if letters.len() <= MAX_PLAYER_NAME_CHARS {
        letters
    } else {
        letters.take(MAX_PLAYER_NAME_CHARS as int)
    }
}

/// The upper-cased ASCII letters of `s`.
pub fn letters_of(s: &str) -> (v: Vec<char>)
    ensures
        v@ == upper_letters(s@),
{
    let mut v: Vec<char> = Vec::new();
    for ch in it: s.chars()
        invariant
            it.seq() == s@,
            v@ == upper_letters(s@.take(it.index() as int)),
    {
        assert(s@.take(it.index() + 1).drop_last() =~= s@.take(it.index() as int));
        if is_alpha(ch) {
            v.push(upper_char(ch));
        }
    }
    assert(s@.take(s@.len() as int) =~= s@);
    v
}

/// Sanitises a player name: keeps its ASCII letters, upper-cased, at most
/// three of them; a name without letters becomes `AAA`.
pub fn sanitize_player_name(raw: &str) -> (r: String)
    ensures
        r@ == sanitized_name(raw@),
{
    let letters = letters_of(raw);
    if letters.len() == 0 {
        return "AAA".to_owned();
    }
    if letters.len() <= MAX_PLAYER_NAME_CHARS {
        string_from_chars(letters.as_slice())
    } else {
        let mut first: Vec<char> = Vec::new();
        first.push(letters[0]);
        first.push(letters[1]);
        first.push(letters[2]);
        assert(first@ =~= letters@.take(3));
        string_from_chars(first.as_slice())
    }
}

/// `s` with `e` placed after every entry whose score is not higher:
/// one step of a stable sort by score.
pub open spec fn insert_ranked(s: Seq<LeaderboardEntry>, e: LeaderboardEntry) -> Seq<LeaderboardEntry>
    decreases s.len(),
{
    if s.len() == 0 {
        seq![e]
    } else if s.last().score <= e.score {
        s.push(e)
    } else {
        insert_ranked(s.drop_last(), e).push(s.last())
    }
}

/// `s` sorted by ascending score, entries of equal score keeping their
/// order (a stable sort, as `sort_by_key`).
pub open spec fn sort_by_score(s: Seq<LeaderboardEntry>) -> Seq<LeaderboardEntry>
    decreases s.len(),
{
    if s.len() == 0 {
        s
    } else {
        insert_ranked(sort_by_score(s.drop_last()), s.last())
    }
}

/// The first `MAX_LEADERBOARD_ENTRIES` entries of `s`.
pub open spec fn top_entries(s: Seq<LeaderboardEntry>) -> Seq<LeaderboardEntry> {
    if s.len() <= MAX_LEADERBOARD_ENTRIES {
        s
    } else {
        s.take(MAX_LEADERBOARD_ENTRIES as int)
    }
}

/// A category's list after `e` is submitted to it: `e` appended, the list
/// sorted by score (lower is better) and cut to the best ten.
pub open spec fn ranked_after(list: Seq<LeaderboardEntry>, e: LeaderboardEntry) -> Seq<LeaderboardEntry> {
    top_entries(sort_by_score(list.push(e)))
}

/// The map from category name to its entries.
pub open spec fn boards_map(boards: Seq<CategoryBoard>, n: int) -> Map<Seq<char>, Seq<LeaderboardEntry>>
    decreases n,
{
    if n <= 0 {
        Map::empty()
    } else {
        boards_map(boards, n - 1).insert(boards[n - 1].category@, boards[n - 1].entries@)
    }
}

impl View for LeaderboardData {
    type V = Map<Seq<char>, Seq<LeaderboardEntry>>;

    open spec fn view(&self) -> Map<Seq<char>, Seq<LeaderboardEntry>> {
        boards_map(self.boards@, self.boards@.len() as int)
    }
}

/// The entries of `category`, or none when the category is unknown.
pub open spec fn entries_or_empty(
    data: Map<Seq<char>, Seq<LeaderboardEntry>>,
    category: Seq<char>,
) -> Seq<LeaderboardEntry> {
    if data.contains_key(category) {
        data[category]
    } else {
        seq![]
    }
}

/// Sum of the list lengths of the first `n` boards.
pub open spec fn entry_total(boards: Seq<CategoryBoard>, n: int) -> nat
    decreases n,
{
    if n <= 0 {
        0
    } else {
        entry_total(boards, n - 1) + boards[n - 1].entries@.len()
    }
}

proof fn lemma_insert_ranked_at(s: Seq<LeaderboardEntry>, e: LeaderboardEntry, j: int)
    requires
        0 <= j <= s.len(),
        forall|k: int| j <= k < s.len() ==> (#[trigger] s[k]).score > e.score,
        j == 0 || s[j - 1].score <= e.score,
    ensures
        insert_ranked(s, e) == s.insert(j, e),
    decreases s.len(),
{
    if s.len() == 0 {
        assert(s.insert(j, e) =~= seq![e]);
    } else if j == s.len() {
        assert(s.insert(j, e) =~= s.push(e));
    } else {
        let d = s.drop_last();
        assert forall|k: int| j <= k < d.len() implies (#[trigger] d[k]).score > e.score by {
            assert(d[k] == s[k]);
        }
        if j > 0 {
            assert(d[j - 1] == s[j - 1]);
        }
        lemma_insert_ranked_at(d, e, j);
        assert(d.insert(j, e).push(s.last()) =~= s.insert(j, e));
    }
}

/// Inserts `e` into `v` after every entry whose score is not higher.
fn insert_ranked_into(v: &mut Vec<LeaderboardEntry>, e: LeaderboardEntry)
    ensures
        final(v)@ == insert_ranked(old(v)@, e),
{
    let mut j: usize = v.len();
    while j > 0 && v[j - 1].score > e.score
        invariant
            j <= v@.len(),
            v@ == old(v)@,
            forall|k: int| j <= k < v@.len() ==> (#[trigger] v@[k]).score > e.score,
        decreases j,
    {
        j = j - 1;
    }
    proof {
        lemma_insert_ranked_at(v@, e, j as int);
    }
    v.insert(j, e);
}

/// The entries sorted by ascending score, stably.
fn sort_entries(list: Vec<LeaderboardEntry>) -> (r: Vec<LeaderboardEntry>)
    ensures
        r@ == sort_by_score(list@),
{
    let ghost all = list@;
    let n = list.len();
    let mut rest = list;
    let mut sorted: Vec<LeaderboardEntry> = Vec::new();
    let mut i: usize = 0;
    while rest.len() > 0
        invariant
            i <= all.len(),
            all.len() == n,
            rest@ == all.skip(i as int),
            sorted@ == sort_by_score(all.take(i as int)),
        decreases rest@.len(),
    {
        let e = rest.remove(0);
        proof {
            assert(e == all[i as int]);
            assert(all.take(i + 1).drop_last() =~= all.take(i as int));
            assert(all.take(i + 1).last() == e);
            assert(rest@ =~= all.skip(i + 1));
        }
        insert_ranked_into(&mut sorted, e);
        i = i + 1;
    }
    assert(all.take(i as int) =~= all);
    sorted
}

/// A category's list after `entry` is submitted: appended, sorted by
/// ascending score (stably) and cut to the best ten.
pub fn rank_submission(list: Vec<LeaderboardEntry>, entry: LeaderboardEntry) -> (r: Vec<LeaderboardEntry>)
    ensures
        r@ == ranked_after(list@, entry),
{
    let ghost old_list = list@;
    let mut sorted = sort_entries(list);
    insert_ranked_into(&mut sorted, entry);
    assert(old_list.push(entry).drop_last() =~= old_list);
    sorted.truncate(MAX_LEADERBOARD_ENTRIES);
    sorted
}

/// A copy of the entries.
pub fn copy_entries(v: &Vec<LeaderboardEntry>) -> (r: Vec<LeaderboardEntry>)
    ensures
        r@ == v@,
{
    let mut r: Vec<LeaderboardEntry> = Vec::new();
    let mut i: usize = 0;
    while i < v.len()
        invariant
            i <= v@.len(),
            r@ == v@.take(i as int),
        decreases v@.len() - i,
    {
        r.push(v[i].duplicate());
        i = i + 1;
        assert(r@ =~= v@.take(i as int));
    }
    assert(v@.take(i as int) =~= v@);
    r
}

/// The leaderboard entry for a submission, stamped with `date`; the
/// player's name is sanitised.
pub fn make_entry(req: &SubmitRequest, date: String) -> (e: LeaderboardEntry)
    ensures
        e.name@ == sanitized_name(req.name@),
        e.score == req.score,
        e.date == date,
{
    LeaderboardEntry { name: sanitize_player_name(req.name.as_str()), score: req.score, date }
}

#[verifier::external_type_specification]
#[verifier::external_body]
pub struct ExSystemTime(std::time::SystemTime);

/// `std::time::SystemTime::now`: the reading of the system clock. The
/// clock decides it; nothing is stated of it.
#[verifier::external_body]
fn system_now() -> std::time::SystemTime {
    std::time::SystemTime::now()
}

/// `SystemTime::duration_since(UNIX_EPOCH)` as whole seconds
/// (`Duration::as_secs`) and nanoseconds (`Duration::subsec_nanos`), or
/// `None` when `t` lies before the epoch. The clock reading decides the
/// value; stated is only what std documents of every outcome, that the
/// nanoseconds are below one second.
#[verifier::external_body]
fn since_unix_epoch(t: &std::time::SystemTime) -> (r: Option<(u64, u32)>)
    ensures
        r matches Some(p) ==> p.1 < 1_000_000_000,
{
    match t.duration_since(std::time::UNIX_EPOCH) {
        Ok(d) => Some((d.as_secs(), d.subsec_nanos())),
        Err(_) => None,
    }
}

/// The RFC 3339 text that chrono writes for the UTC instant `secs` seconds
/// and `nanos` nanoseconds after the Unix epoch, or `None` when chrono
/// cannot represent that instant.
pub uninterp spec fn rfc3339_utc(secs: i64, nanos: u32) -> Option<Seq<char>>;

/// `chrono::DateTime::<Utc>::from_timestamp(secs, nanos)`, written with
/// `DateTime::to_rfc3339`; `None` when `from_timestamp` refuses the instant.
/// The text is named `rfc3339_utc`; of a UTC date-time `to_rfc3339` writes
/// the offset as `+00:00`, which is stated too.
#[verifier::external_body]
fn format_rfc3339_utc(secs: i64, nanos: u32) -> (r: Option<String>)
    ensures
        opt_view(r) == rfc3339_utc(secs, nanos),
        r matches Some(s) ==> has_suffix(s@, "+00:00"@),
{
    match chrono::DateTime::<chrono::Utc>::from_timestamp(secs, nanos) {
        Some(d) => Some(d.to_rfc3339()),
        None => None,
    }
}

/// The timestamp of an instant given as seconds and nanoseconds after the
/// Unix epoch: none without an instant, for more seconds than `i64` holds,
/// or when chrono cannot write it.
pub open spec fn stamp_of(since_epoch: Option<(u64, u32)>) -> Option<Seq<char>> {
    match since_epoch {
        None => None,
        Some(p) => if p.0 <= i64::MAX {
            rfc3339_utc(p.0 as i64, p.1)
        } else {
            None
        },
    }
}

/// The timestamp of an instant given as seconds and nanoseconds after the
/// Unix epoch (`None` for a clock before the epoch).
pub fn timestamp_at(since_epoch: Option<(u64, u32)>) -> (r: Option<String>)
    ensures
        opt_view(r) == stamp_of(since_epoch),
        r matches Some(s) ==> has_suffix(s@, "+00:00"@),
{
    match since_epoch {
        None => None,
        Some((secs, nanos)) => {
            if secs <= i64::MAX as u64 {
                format_rfc3339_utc(secs as i64, nanos)
            } else {
                None
            }
        },
    }
}

/// The leaderboard entry for a submission stamped with the instant
/// `since_epoch`: `None` when that instant has no timestamp.
pub fn entry_at(req: &SubmitRequest, since_epoch: Option<(u64, u32)>) -> (r: Option<
    LeaderboardEntry,
>)
    ensures
        r is Some <==> stamp_of(since_epoch) is Some,
        r matches Some(e) ==> {
            &&& e.name@ == sanitized_name(req.name@)
            &&& e.score == req.score
            &&& Some(e.date@) == stamp_of(since_epoch)
            &&& has_suffix(e.date@, "+00:00"@)
        },
{
    match timestamp_at(since_epoch) {
        Some(date) => Some(make_entry(req, date)),
        None => None,
    }
}

/// The leaderboard entry for a submission, stamped with the current UTC
/// time. The clock decides the stamp: whenever an entry comes back, its
/// name is sanitised, its score is the one submitted and its date is an
/// RFC 3339 UTC timestamp (ending in `+00:00`); `None` when the clock is
/// set before the Unix epoch or out of chrono's range.
pub fn new_entry(req: &SubmitRequest) -> (r: Option<LeaderboardEntry>)
    ensures
        r matches Some(e) ==> {
            &&& e.name@ == sanitized_name(req.name@)
            &&& e.score == req.score
            &&& has_suffix(e.date@, "+00:00"@)
        },
{
    let now = system_now();
    entry_at(req, since_unix_epoch(&now))
}

/// The category asked for, `Alpha` by default.
pub fn requested_category(params: &GetParams) -> (r: String)
    ensures
        r@ == match params.category {
            Some(c) => c@,
            None => "Alpha"@,
        },
{
    match &params.category {
        Some(c) => c.clone(),
        None => "Alpha".to_owned(),
    }
}

proof fn lemma_boards_map_prefix(a: Seq<CategoryBoard>, b: Seq<CategoryBoard>, n: int)
    requires
        0 <= n <= a.len(),
        n <= b.len(),
        forall|i: int| 0 <= i < n ==> a[i] == b[i],
    ensures
        boards_map(a, n) == boards_map(b, n),
    decreases n,
{
    if n > 0 {
        lemma_boards_map_prefix(a, b, n - 1);
        assert(a[n - 1] == b[n - 1]);
    }
}

pub(crate) proof fn lemma_boards_map_lookup(boards: Seq<CategoryBoard>, n: int)
    requires
        0 <= n <= boards.len(),
        forall|i: int, j: int|
            0 <= i < j < boards.len() ==> (#[trigger] boards[i]).category@ != (#[trigger] boards[j]).category@,
    ensures
        forall|k: Seq<char>|
            #[trigger] boards_map(boards, n).contains_key(k) <==> exists|i: int|
                0 <= i < n && (#[trigger] boards[i]).category@ == k,
        forall|i: int|
            0 <= i < n ==> boards_map(boards, n)[(#[trigger] boards[i]).category@] == boards[i].entries@,
    decreases n,
{
    if n > 0 {
        lemma_boards_map_lookup(boards, n - 1);
        let m = boards_map(boards, n);
        assert forall|k: Seq<char>| #[trigger] m.contains_key(k) <==> exists|i: int|
            0 <= i < n && (#[trigger] boards[i]).category@ == k by {
            if m.contains_key(k) && k != boards[n - 1].category@ {
                assert(boards_map(boards, n - 1).contains_key(k));
            }
            if k == boards[n - 1].category@ {
                assert(boards[n - 1].category@ == k);
            }
        }
        assert forall|i: int| 0 <= i < n implies m[(#[trigger] boards[i]).category@] == boards[i].entries@ by {
            if i < n - 1 {
                assert(boards[i].category@ != boards[n - 1].category@);
            }
        }
    }
}

proof fn lemma_boards_map_update(boards: Seq<CategoryBoard>, n: int, i: int, nb: CategoryBoard)
    requires
        0 <= i < n <= boards.len(),
        nb.category@ == boards[i].category@,
        forall|a: int, b: int|
            0 <= a < b < boards.len() ==> (#[trigger] boards[a]).category@ != (#[trigger] boards[b]).category@,
    ensures
        boards_map(boards.update(i, nb), n) == boards_map(boards, n).insert(nb.category@, nb.entries@),
    decreases n,
{
    let u = boards.update(i, nb);
    let k = nb.category@;
    if n - 1 == i {
        lemma_boards_map_prefix(u, boards, n - 1);
        assert(boards_map(u, n) =~= boards_map(boards, n).insert(k, nb.entries@));
    } else {
        lemma_boards_map_update(boards, n - 1, i, nb);
        assert(boards[n - 1].category@ != k);
        assert(u[n - 1] == boards[n - 1]);
        assert(boards_map(u, n) =~= boards_map(boards, n).insert(k, nb.entries@));
    }
}

impl LeaderboardData {
    /// Each category is listed once.
    pub open spec fn wf(&self) -> bool {
        forall|i: int, j: int|
            0 <= i < j < self.boards@.len() ==> (#[trigger] self.boards@[i]).category@
                != (#[trigger] self.boards@[j]).category@
    }

    /// An empty leaderboard.
    pub fn new() -> (d: Self)
        ensures
            d.wf(),
            d@ == Map::<Seq<char>, Seq<LeaderboardEntry>>::empty(),
    {
        LeaderboardData { boards: Vec::new() }
    }

    /// The position of `category` among the boards.
    fn find(&self, category: &[char]) -> (r: Option<usize>)
        ensures
            match r {
                Some(i) => i < self.boards@.len() && self.boards@[i as int].category@ == category@,
                None => forall|i: int|
                    0 <= i < self.boards@.len() ==> (#[trigger] self.boards@[i]).category@ != category@,
            },
    {
        let mut i: usize = 0;
        while i < self.boards.len()
            invariant
                i <= self.boards@.len(),
                forall|k: int| 0 <= k < i ==> (#[trigger] self.boards@[k]).category@ != category@,
            decreases self.boards@.len() - i,
        {
            let name = chars_of(self.boards[i].category.as_str());
            if chars_equal(name.as_slice(), category) {
                return Some(i);
            }
            i = i + 1;
        }
        None
    }

    /// The entries of `category` (none when it is unknown).
    pub fn entries_for(&self, category: &str) -> (r: Vec<LeaderboardEntry>)
        requires
            self.wf(),
        ensures
            r@ == entries_or_empty(self@, category@),
    {
        proof {
            lemma_boards_map_lookup(self.boards@, self.boards@.len() as int);
        }
        let wanted = chars_of(category);
        match self.find(wanted.as_slice()) {
            Some(i) => copy_entries(&self.boards[i].entries),
            None => Vec::new(),
        }
    }

    /// Adds `entry` to `category` (creating the category if needed), keeps
    /// that list sorted by score and cut to the best ten, and returns it.
    /// Other categories are untouched.
    pub fn submit(&mut self, category: &str, entry: LeaderboardEntry) -> (r: Vec<LeaderboardEntry>)
        requires
            old(self).wf(),
        ensures
            final(self).wf(),
            final(self)@ == old(self)@.insert(
                category@,
                ranked_after(entries_or_empty(old(self)@, category@), entry),
            ),
            r@ == ranked_after(entries_or_empty(old(self)@, category@), entry),
            entry_total(final(self).boards@, final(self).boards@.len() as int) + entries_or_empty(
                old(self)@,
                category@,
            ).len() == entry_total(old(self).boards@, old(self).boards@.len() as int) + r@.len(),
            entries_or_empty(old(self)@, category@).len() < MAX_LEADERBOARD_ENTRIES ==> entry_total(
                final(self).boards@,
                final(self).boards@.len() as int,
            ) == entry_total(old(self).boards@, old(self).boards@.len() as int) + 1,
    {
        proof {
            lemma_boards_map_lookup(self.boards@, self.boards@.len() as int);
            if entries_or_empty(self@, category@).len() < MAX_LEADERBOARD_ENTRIES {
                law_submission_kept_when_room(entries_or_empty(self@, category@), entry);
            }
        }
        let wanted = chars_of(category);
        match self.find(wanted.as_slice()) {
            Some(i) => {
                let ghost before = self.boards@;
                let board = self.boards.remove(i);
                let entries = rank_submission(board.entries, entry);
                let result = copy_entries(&entries);
                let nb = CategoryBoard { category: board.category, entries };
                let ghost nb_ghost = nb;
                self.boards.insert(i, nb);
                proof {
                    assert(self.boards@ =~= before.update(i as int, nb_ghost));
                    lemma_boards_map_update(before, before.len() as int, i as int, nb_ghost);
                    law_total_after_replacing(before, i as int, nb_ghost);
                    assert(before[i as int].entries@ == entries_or_empty(old(self)@, category@));
                    assert forall|a: int, b: int|
                        0 <= a < b < self.boards@.len() implies (#[trigger] self.boards@[a]).category@
                            != (#[trigger] self.boards@[b]).category@ by {
                        assert(self.boards@[a].category@ == before[a].category@);
                        assert(self.boards@[b].category@ == before[b].category@);
                    }
                }
                result
            },
            None => {
                let ghost before = self.boards@;
                let entries = rank_submission(Vec::new(), entry);
                let result = copy_entries(&entries);
                let nb = CategoryBoard { category: category.to_owned(), entries };
                let ghost nb_ghost = nb;
                self.boards.push(nb);
                proof {
                    assert(entries_or_empty(old(self)@, category@) =~= Seq::<LeaderboardEntry>::empty());
                    lemma_boards_map_prefix(self.boards@, before, before.len() as int);
                    law_total_after_adding(before, nb_ghost);
                    assert forall|a: int, b: int|
                        0 <= a < b < self.boards@.len() implies (#[trigger] self.boards@[a]).category@
                            != (#[trigger] self.boards@[b]).category@ by {
                        if b == before.len() {
                            assert(self.boards@[a] == before[a]);
                        } else {
                            assert(self.boards@[a] == before[a]);
                            assert(self.boards@[b] == before[b]);
                        }
                    }
                }
                result
            },
        }
    }

    /// Total number of entries over all categories (saturating at
    /// `u64::MAX`).
    pub fn entry_count(&self) -> (n: u64)
        ensures
            n == if entry_total(self.boards@, self.boards@.len() as int) <= u64::MAX {
                entry_total(self.boards@, self.boards@.len() as int)
            } else {
                u64::MAX as nat
            },
    {
        let mut total: u64 = 0;
        let mut saturated = false;
        let mut i: usize = 0;
        while i < self.boards.len()
            invariant
                i <= self.boards@.len(),
                saturated ==> total == u64::MAX && entry_total(self.boards@, i as int) > u64::MAX,
                !saturated ==> total == entry_total(self.boards@, i as int),
            decreases self.boards@.len() - i,
        {
            let len = self.boards[i].entries.len() as u64;
            if !saturated {
                if total <= u64::MAX - len {
                    total = total + len;
                } else {
                    total = u64::MAX;
                    saturated = true;
                }
            }
            i = i + 1;
        }
        total
    }
}

} // verus!
