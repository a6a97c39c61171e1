//! What the game's screens show: the face and style classes of a square,
//! the status line after a move, times, ranks and the initials typed in
//! after a win.

use vstd::prelude::*;

use crate::scan_logic::{Cell, GameStatus};
use crate::text::{
    decimal, digit_char, is_alpha, is_ascii_alpha, push_char, push_decimal, push_str,
    string_from_chars,
};

verus! {

/// What a square shows.
#[derive(Clone, Copy, PartialEq, Eq, Debug, Structural)]
pub enum CellFace {
    Covered,
    Flagged,
    Mine,
    Number(u8),
    Empty,
}

/// The face of a square: an open square shows its mine, its count of
/// mines around, or nothing; a covered one shows its beacon or nothing.
pub open spec fn face_of(cell: Cell) -> CellFace {
    if cell.is_revealed {
        if cell.is_mine {
            CellFace::Mine
        } else if cell.adjacent_mines > 0 {
            CellFace::Number(cell.adjacent_mines)
        } else {
            CellFace::Empty
        }
    } else if cell.is_flagged {
        CellFace::Flagged
    } else {
        CellFace::Covered
    }
}

pub fn cell_face(cell: Cell) -> (f: CellFace)
    ensures
        f == face_of(cell),
{
    if cell.is_revealed {
        if cell.is_mine {
            CellFace::Mine
        } else if cell.adjacent_mines > 0 {
            CellFace::Number(cell.adjacent_mines)
        } else {
            CellFace::Empty
        }
    } else if cell.is_flagged {
        CellFace::Flagged
    } else {
        CellFace::Covered
    }
}

/// The style classes of a square: `scan-cell`, then `revealed` with
/// `mine` or `adjacent-N` for an open square, `flagged` or `covered`
/// for a closed one.
pub open spec fn classes_of(cell: Cell) -> Seq<Seq<char>> {
    if cell.is_revealed {
        if cell.is_mine {
            seq!["scan-cell"@, "revealed"@, "mine"@]
        } else if cell.adjacent_mines > 0 {
            seq!["scan-cell"@, "revealed"@, "adjacent-"@ + decimal(cell.adjacent_mines as nat)]
        } else {
            seq!["scan-cell"@, "revealed"@]
        }
    } else if cell.is_flagged {
        seq!["scan-cell"@, "flagged"@]
    } else {
        seq!["scan-cell"@, "covered"@]
    }
}

pub open spec fn strings_view(v: Seq<String>) -> Seq<Seq<char>> {
    v.map_values(|s: String| s@)
}

pub fn cell_classes(cell: Cell) -> (v: Vec<String>)
    ensures
        strings_view(v@) == classes_of(cell),
{
    let mut v: Vec<String> = Vec::new();
    v.push("scan-cell".to_owned());
    if cell.is_revealed {
        v.push("revealed".to_owned());
        if cell.is_mine {
            v.push("mine".to_owned());
        } else if cell.adjacent_mines > 0 {
            let mut class = "adjacent-".to_owned();
            push_decimal(&mut class, cell.adjacent_mines as u64);
            v.push(class);
        }
    } else if cell.is_flagged {
        v.push("flagged".to_owned());
    } else {
        v.push("covered".to_owned());
    }
    assert(strings_view(v@) =~= classes_of(cell));
    v
}

/// `(c + 1, r + 1)` in the status lines, as `"(x, y)"`.
pub open spec fn coords(r: nat, c: nat) -> Seq<char> {
    "("@ + decimal(c + 1) + ", "@ + decimal(r + 1) + ")"@
}

pub open spec fn message_view(m: Option<(String, String)>) -> Option<(Seq<char>, Seq<char>)> {
    match m {
        Some((text, kind)) => Some((text@, kind@)),
        None => None,
    }
}

/// The status line after a reveal at `(r, c)` moved the game from `old`
/// to `new`.
pub open spec fn reveal_message(old: GameStatus, new: GameStatus, r: nat, c: nat) -> Option<
    (Seq<char>, Seq<char>),
> {
    if new == GameStatus::Won {
        Some(("Sector secured successfully."@, "success"@))
    } else if new == GameStatus::Lost {
        Some(("Danger! Detonation hazard encountered."@, "error"@))
    } else if old == GameStatus::NotStarted && new == GameStatus::Playing {
        Some(("Scanning sector... Detonation hazards present."@, "success"@))
    } else if new == GameStatus::Playing {
        Some(("Grid sector "@ + coords(r, c) + " scanned: Clear."@, "success"@))
    } else {
        None
    }
}

/// Appends `(c + 1, r + 1)`.
fn push_coords(s: &mut String, r: usize, c: usize)
    requires
        r < usize::MAX,
        c < usize::MAX,
    ensures
        final(s)@ == old(s)@ + coords(r as nat, c as nat),
{
    push_str(s, "(");
    push_decimal(s, (c as u64) + 1);
    push_str(s, ", ");
    push_decimal(s, (r as u64) + 1);
    push_str(s, ")");
    assert(final(s)@ =~= old(s)@ + coords(r as nat, c as nat));
}

/// The status line after a reveal at `(r, c)`: the game was started, the
/// square was clear, the sector was secured, or a hazard was hit; `None`
/// when the reveal changed nothing worth reporting.
pub fn reveal_status_message(old: GameStatus, new: GameStatus, r: usize, c: usize) -> (m: Option<
    (String, String),
>)
    requires
        new == GameStatus::Playing && old != GameStatus::NotStarted ==> r < usize::MAX && c
            < usize::MAX,
    ensures
        message_view(m) == reveal_message(old, new, r as nat, c as nat),
{
    if new == GameStatus::Won {
        Some(("Sector secured successfully.".to_owned(), "success".to_owned()))
    } else if new == GameStatus::Lost {
        Some(("Danger! Detonation hazard encountered.".to_owned(), "error".to_owned()))
    } else if old == GameStatus::NotStarted && new == GameStatus::Playing {
        Some(("Scanning sector... Detonation hazards present.".to_owned(), "success".to_owned()))
    } else if new == GameStatus::Playing {
        let mut text = "Grid sector ".to_owned();
        push_coords(&mut text, r, c);
        push_str(&mut text, " scanned: Clear.");
        Some((text, "success".to_owned()))
    } else {
        None
    }
}

/// The status line after a flag toggle at `(r, c)`.
pub open spec fn flag_message(was_flagged: bool, is_flagged: bool, r: nat, c: nat) -> Option<
    (Seq<char>, Seq<char>),
> {
    if was_flagged == is_flagged {
        None
    } else if is_flagged {
        Some(("Beacon deployed at "@ + coords(r, c) + "."@, "success"@))
    } else {
        Some(("Beacon retrieved from "@ + coords(r, c) + "."@, "success"@))
    }
}

/// The status line after a flag toggle at `(r, c)`; `None` when the
/// beacon did not change.
pub fn flag_status_message(was_flagged: bool, is_flagged: bool, r: usize, c: usize) -> (m: Option<
    (String, String),
>)
    requires
        was_flagged != is_flagged ==> r < usize::MAX && c < usize::MAX,
    ensures
        message_view(m) == flag_message(was_flagged, is_flagged, r as nat, c as nat),
{
    if was_flagged == is_flagged {
        return None;
    }
    let mut text = if is_flagged {
        "Beacon deployed at ".to_owned()
    } else {
        "Beacon retrieved from ".to_owned()
    };
    push_coords(&mut text, r, c);
    push_str(&mut text, ".");
    Some((text, "success".to_owned()))
}

/// A time in tenths of a second written as seconds with one decimal and
/// an `s`, such as `12.3s`.
pub open spec fn tenths_text(tenths: nat) -> Seq<char> {
    decimal(tenths / 10) + "."@ + seq![digit_char(tenths % 10)] + "s"@
}

pub fn format_tenths(tenths: u32) -> (s: String)
    ensures
        s@ == tenths_text(tenths as nat),
{
    let mut s = String::new();
    push_decimal(&mut s, (tenths / 10) as u64);
    push_str(&mut s, ".");
    let d: u8 = (tenths % 10) as u8;
    let ch: char = (48u8 + d) as char;
    assert(ch == digit_char((tenths % 10) as nat));
    push_char(&mut s, ch);
    push_str(&mut s, "s");
    assert(s@ =~= tenths_text(tenths as nat));
    s
}

/// The rank shown for the row at position `idx`: `#` and `idx + 1`.
pub fn rank_label(idx: usize) -> (s: String)
    requires
        idx < usize::MAX,
    ensures
        s@ == "#"@ + decimal((idx + 1) as nat),
{
    let mut s = "#".to_owned();
    push_decimal(&mut s, (idx as u64) + 1);
    s
}

/// The ASCII letters of `s`, in order.
pub open spec fn ascii_letters(s: Seq<char>) -> Seq<char>
    decreases s.len(),
{
    if s.len() == 0 {
        seq![]
    } else if is_ascii_alpha(s.last()) {
        ascii_letters(s.drop_last()).push(s.last())
    } else {
        ascii_letters(s.drop_last())
    }
}

/// The first three ASCII letters of `s`.
pub open spec fn first_three_letters(s: Seq<char>) -> Seq<char> {
    let l = ascii_letters(s);
    if l.len() <= 3 {
        l
    } else {
        l.take(3)
    }
}

/// Result of Unicode upper-casing (`str::to_uppercase`), which follows
/// the Unicode case tables.
pub uninterp spec fn unicode_upper(s: Seq<char>) -> Seq<char>;

/// `str::to_uppercase`: its result is named `unicode_upper` of the input.
#[verifier::external_body]
fn to_uppercase(s: &str) -> (r: String)
    ensures
        r@ == unicode_upper(s@),
{
    s.to_uppercase()
}

/// The initials kept from already upper-cased input: its first three
/// ASCII letters.
pub fn initials_from_upper(upper: &str) -> (r: String)
    ensures
        r@ == first_three_letters(upper@),
{
    let mut letters: Vec<char> = Vec::new();
    for ch in it: upper.chars()
        invariant
            it.seq() == upper@,
            letters@ == ascii_letters(upper@.take(it.index() as int)),
    {
        assert(upper@.take(it.index() + 1).drop_last() =~= upper@.take(it.index() as int));
        if is_alpha(ch) {
            letters.push(ch);
        }
    }
    assert(upper@.take(upper@.len() as int) =~= upper@);
    if letters.len() <= 3 {
        string_from_chars(letters.as_slice())
    } else {
        let mut first: Vec<char> = Vec::new();
        first.push(letters[0]);
        first.push(letters[1]);
        first.push(letters[2]);
        assert(first@ =~= letters@.take(3));
        string_from_chars(first.as_slice())
    }
}

/// The initials field of the victory form: the typed text upper-cased,
/// keeping its first three ASCII letters.
pub fn overlay_initials(typed: &str) -> (r: String)
    ensures
        r@ == first_three_letters(unicode_upper(typed@)),
{
    let upper = to_uppercase(typed);
    initials_from_upper(upper.as_str())
}

proof fn lemma_decimal_nonempty(n: nat)
    ensures
        decimal(n).len() >= 1,
{
}

proof fn lemma_class_names_distinct()
    ensures
        "scan-cell"@ != "revealed"@,
        "scan-cell"@ != "covered"@,
        "scan-cell"@ != "flagged"@,
        "scan-cell"@ != "mine"@,
        "revealed"@ != "covered"@,
        "revealed"@ != "flagged"@,
        "revealed"@ != "mine"@,
        "covered"@ != "flagged"@,
        "covered"@ != "mine"@,
        "flagged"@ != "mine"@,
        "scan-cell"@.len() == 9,
        "revealed"@.len() == 8,
        "covered"@.len() == 7,
        "flagged"@.len() == 7,
        "mine"@.len() == 4,
        "adjacent-"@.len() == 9,
{
    reveal_strlit("scan-cell");
    reveal_strlit("revealed");
    reveal_strlit("covered");
    reveal_strlit("flagged");
    reveal_strlit("mine");
    reveal_strlit("adjacent-");
    assert("covered"@[0] != "flagged"@[0]);
    assert("scan-cell"@.len() != "revealed"@.len());
    assert("scan-cell"@[0] != "mine"@[0]);
}

/// A covered square never gives away what it holds: it shows its beacon
/// or nothing, whatever mine or count lies under it. An open square shows
/// its mine, else its count of mines around, else nothing; the mine face
/// appears on open squares holding a mine only.
pub proof fn law_face_hides_covered_squares(cell: Cell)
    ensures
        !cell.is_revealed && cell.is_flagged ==> face_of(cell) == CellFace::Flagged,
        !cell.is_revealed && !cell.is_flagged ==> face_of(cell) == CellFace::Covered,
        face_of(cell) == CellFace::Mine <==> cell.is_revealed && cell.is_mine,
        face_of(cell) == CellFace::Covered ==> !cell.is_revealed && !cell.is_flagged,
        face_of(cell) == CellFace::Flagged ==> !cell.is_revealed && cell.is_flagged,
        cell.is_revealed && !cell.is_mine && cell.adjacent_mines > 0 ==> face_of(cell)
            == CellFace::Number(cell.adjacent_mines),
        cell.is_revealed && !cell.is_mine && cell.adjacent_mines == 0 ==> face_of(cell)
            == CellFace::Empty,
{
}

/// Every square is styled `scan-cell` first. An open square is styled
/// `revealed`, followed by `mine` when it holds one or `adjacent-N` when
/// `N > 0` mines are around it, and by nothing else; `covered` marks
/// exactly the closed squares without a beacon, `flagged` exactly the
/// closed squares with one, and `mine` exactly the open mines.
pub proof fn law_classes_follow_the_square(cell: Cell)
    ensures
        classes_of(cell).len() >= 2,
        classes_of(cell)[0] == "scan-cell"@,
        cell.is_revealed ==> classes_of(cell)[1] == "revealed"@,
        cell.is_revealed ==> (classes_of(cell).len() == 2 <==> !cell.is_mine && cell.adjacent_mines
            == 0),
        cell.is_revealed && cell.is_mine ==> classes_of(cell) =~= seq![
            "scan-cell"@,
            "revealed"@,
            "mine"@,
        ],
        cell.is_revealed && !cell.is_mine && cell.adjacent_mines > 0 ==> classes_of(cell) =~= seq![
            "scan-cell"@,
            "revealed"@,
            "adjacent-"@ + decimal(cell.adjacent_mines as nat),
        ],
        classes_of(cell).contains("revealed"@) <==> cell.is_revealed,
        classes_of(cell).contains("covered"@) <==> !cell.is_revealed && !cell.is_flagged,
        classes_of(cell).contains("flagged"@) <==> !cell.is_revealed && cell.is_flagged,
        classes_of(cell).contains("mine"@) <==> cell.is_revealed && cell.is_mine,
{
    lemma_class_names_distinct();
    lemma_decimal_nonempty(cell.adjacent_mines as nat);
    let v = classes_of(cell);
    let adj = "adjacent-"@ + decimal(cell.adjacent_mines as nat);
    assert(adj.len() >= 10);
    assert(adj != "revealed"@ && adj != "covered"@ && adj != "flagged"@ && adj != "mine"@);
    if cell.is_revealed {
        assert(v[1] == "revealed"@);
    }
    if v.contains("covered"@) {
        let k = choose|k: int| 0 <= k < v.len() && v[k] == "covered"@;
        assert(v[k] == "covered"@);
    }
    if v.contains("flagged"@) {
        let k = choose|k: int| 0 <= k < v.len() && v[k] == "flagged"@;
        assert(v[k] == "flagged"@);
    }
    if v.contains("revealed"@) {
        let k = choose|k: int| 0 <= k < v.len() && v[k] == "revealed"@;
        assert(v[k] == "revealed"@);
    }
    if v.contains("mine"@) {
        let k = choose|k: int| 0 <= k < v.len() && v[k] == "mine"@;
        assert(v[k] == "mine"@);
    }
    if !cell.is_revealed && !cell.is_flagged {
        assert(v[1] == "covered"@);
    }
    if !cell.is_revealed && cell.is_flagged {
        assert(v[1] == "flagged"@);
    }
    if cell.is_revealed && cell.is_mine {
        assert(v[2] == "mine"@);
    }
}

/// The status line after a reveal follows the new state of the game: a
/// loss always reports the hazard (as an error), a win the secured
/// sector, the first reveal the start of the scan, a later reveal in a
/// running game the cleared square; a reveal that leaves the game not
/// started reports nothing. The message kind is `error` exactly for a
/// loss.
pub proof fn law_reveal_message_follows_status(old: GameStatus, new: GameStatus, r: nat, c: nat)
    ensures
        new == GameStatus::Lost ==> reveal_message(old, new, r, c) == Some(
            ("Danger! Detonation hazard encountered."@, "error"@),
        ),
        new == GameStatus::Won ==> reveal_message(old, new, r, c) == Some(
            ("Sector secured successfully."@, "success"@),
        ),
        new == GameStatus::NotStarted ==> reveal_message(old, new, r, c) is None,
        new == GameStatus::Playing && old == GameStatus::NotStarted ==> reveal_message(old, new, r, c)
            == Some(("Scanning sector... Detonation hazards present."@, "success"@)),
        new == GameStatus::Playing && old != GameStatus::NotStarted ==> reveal_message(old, new, r, c)
            == Some(("Grid sector "@ + coords(r, c) + " scanned: Clear."@, "success"@)),
        reveal_message(old, new, r, c) matches Some(m) ==> (m.1 == "error"@ <==> new
            == GameStatus::Lost),
{
    reveal_strlit("error");
    reveal_strlit("success");
    assert("error"@.len() != "success"@.len());
}

/// The status line after a beacon toggle reports the change at the
/// square: a beacon that appeared is reported deployed, one that went away
/// retrieved, and a toggle that changed nothing reports nothing.
pub proof fn law_flag_message_follows_change(was_flagged: bool, is_flagged: bool, r: nat, c: nat)
    ensures
        !was_flagged && is_flagged ==> flag_message(was_flagged, is_flagged, r, c) == Some(
            ("Beacon deployed at "@ + coords(r, c) + "."@, "success"@),
        ),
        was_flagged && !is_flagged ==> flag_message(was_flagged, is_flagged, r, c) == Some(
            ("Beacon retrieved from "@ + coords(r, c) + "."@, "success"@),
        ),
        flag_message(was_flagged, is_flagged, r, c) is None <==> was_flagged == is_flagged,
{
}

} // verus!
