//! The text shown to the player: where they stand, and what lies down each
//! corridor.

use vstd::prelude::*;
use crate::grid::{digit, pow8, lemma_digit_split, lemma_pow8_pos};
use crate::game::GOAL_POSITION;

verus! {

/// The name shown for axis `k`, with a trailing space.
pub open spec fn axis_text(k: u32) -> Seq<char> {
    if k == 0 {
        seq!['x', ' ']
    } else if k == 1 {
        seq!['y', ' ']
    } else if k == 2 {
        seq!['z', ' ']
    } else {
        seq!['a', ' ']
    }
}

/// The character of a digit below 8.
pub open spec fn digit_char(v: nat) -> char {
    if v == 0 {
        '0'
    } else if v == 1 {
        '1'
    } else if v == 2 {
        '2'
    } else if v == 3 {
        '3'
    } else if v == 4 {
        '4'
    } else if v == 5 {
        '5'
    } else if v == 6 {
        '6'
    } else {
        '7'
    }
}

/// The coordinates of cell `p` on axes `i` up to `count`, each preceded by
/// ", ".
pub open spec fn coordinates_from(p: nat, i: nat, count: nat) -> Seq<char>
    decreases count - i,
{
    if i >= count {
        Seq::empty()
    } else {
        seq![',', ' ', digit_char(digit(p, i))] + coordinates_from(p, i + 1, count)
    }
}

/// The coordinates from axis `i` up to `count` take three characters each:
/// a comma, a space, and the digit of that axis.
pub proof fn lemma_coordinates_layout(p: nat, i: nat, count: nat)
    requires
        i <= count,
    ensures
        coordinates_from(p, i, count).len() == 3 * (count - i),
        forall|j: int|
            0 <= j < count - i ==> {
                &&& #[trigger] coordinates_from(p, i, count)[3 * j] == ','
                &&& coordinates_from(p, i, count)[3 * j + 1] == ' '
                &&& coordinates_from(p, i, count)[3 * j + 2] == digit_char(digit(p, (i + j) as nat))
            },
    decreases count - i,
{
    if i < count {
        lemma_coordinates_layout(p, i + 1, count);
        let rest = coordinates_from(p, i + 1, count);
        let cf = coordinates_from(p, i, count);
        assert(cf == seq![',', ' ', digit_char(digit(p, i))] + rest);
        assert forall|j: int| 0 <= j < count - i implies {
            &&& #[trigger] cf[3 * j] == ','
            &&& cf[3 * j + 1] == ' '
            &&& cf[3 * j + 2] == digit_char(digit(p, (i + j) as nat))
        } by {
            if j > 0 {
                let j1 = j - 1;
                assert(rest[3 * j1] == ',');
                assert(cf[3 * j] == rest[3 * j1]);
                assert(cf[3 * j + 1] == rest[3 * j1 + 1]);
                assert(cf[3 * j + 2] == rest[3 * j1 + 2]);
                assert((i + 1 + j1) as nat == (i + j) as nat);
            }
        }
    } else {
        assert(coordinates_from(p, i, count) =~= Seq::<char>::empty());
    }
}

/// The state line lists one coordinate per axis: after "Position: (" come
/// the digits of the cell on axes `0` to `n - 1`, separated by ", ", then ")".
pub proof fn lemma_state_text_layout(p: nat, n: nat, direction: (bool, u32), note: Seq<char>)
    requires
        n >= 1,
    ensures
        ({
            let t = state_text(p, n, direction, note);
            &&& t.len() > 3 * n + 9
            &&& t.subrange(0, 11) == seq!['P', 'o', 's', 'i', 't', 'i', 'o', 'n', ':', ' ', '(']
            &&& forall|k: int| 0 <= k < n ==> #[trigger] t[11 + 3 * k] == digit_char(digit(p, k as nat))
            &&& forall|k: int| 1 <= k < n ==> #[trigger] t[9 + 3 * k] == ',' && t[10 + 3 * k] == ' '
            &&& t[(3 * n + 9) as int] == ')'
        }),
{
    let t = state_text(p, n, direction, note);
    let cf = coordinates_from(p, 1, n);
    lemma_coordinates_layout(p, 1, n);
    let head = seq!['P', 'o', 's', 'i', 't', 'i', 'o', 'n', ':', ' ', '(', digit_char(digit(p, 0))];
    let tail = seq![')', ' ', 'F', 'a', 'c', 'i', 'n', 'g', ':', ' '] + axis_text(direction.1) + (if direction.0 {
        seq!['+']
    } else {
        seq!['-']
    }) + seq![' ', 'n', 'o', 't', 'e', ':', ' '] + note;
    assert(t =~= head + cf + tail);
    assert(t.subrange(0, 11) =~= seq!['P', 'o', 's', 'i', 't', 'i', 'o', 'n', ':', ' ', '(']);
    assert forall|k: int| 0 <= k < n implies #[trigger] t[11 + 3 * k] == digit_char(digit(p, k as nat)) by {
        if k > 0 {
            let j = k - 1;
            assert(cf[3 * j] == ',');
            assert(t[11 + 3 * k] == cf[3 * j + 2]);
            assert((1 + j) as nat == k as nat);
        }
    }
    assert forall|k: int| 1 <= k < n implies #[trigger] t[9 + 3 * k] == ',' && t[10 + 3 * k] == ' ' by {
        let j = k - 1;
        assert(cf[3 * j] == ',');
        assert(t[9 + 3 * k] == cf[3 * j]);
        assert(t[10 + 3 * k] == cf[3 * j + 1]);
    }
    assert(t[(3 * n + 9) as int] == tail[0]);
}

/// The text of the state line: the coordinates of the cell on each axis,
/// the direction faced, and the note in the cell.
pub open spec fn state_text(position: nat, dimensions: nat, direction: (bool, u32), note: Seq<char>) -> Seq<char> {
    seq!['P', 'o', 's', 'i', 't', 'i', 'o', 'n', ':', ' ', '(', digit_char(digit(position, 0))]
        + coordinates_from(position, 1, dimensions) + seq![')', ' ', 'F', 'a', 'c', 'i', 'n', 'g', ':', ' ']
        + axis_text(direction.1) + (if direction.0 {
        seq!['+']
    } else {
        seq!['-']
    }) + seq![' ', 'n', 'o', 't', 'e', ':', ' '] + note
}

/// The head of a corridor label: the axis and sign faced, and a rule.
pub open spec fn hall_head_text(direction: (bool, u32)) -> Seq<char> {
    seq!['.'] + axis_text(direction.1) + (if direction.0 {
        seq!['+']
    } else {
        seq!['-']
    }) + seq!['.', '\n', '_', '_', '\n']
}

/// The notes of a corridor, farthest first, each between bars on a line of
/// its own.
pub open spec fn hall_notes_text(notes: Seq<String>) -> Seq<char>
    decreases notes.len(),
{
    if notes.len() == 0 {
        Seq::empty()
    } else {
        seq!['|'] + notes.last()@ + seq!['|', '\n'] + hall_notes_text(notes.drop_last())
    }
}

/// The length of the text of the notes: each note with its two bars and its
/// line break.
pub open spec fn notes_text_len(notes: Seq<String>) -> nat
    decreases notes.len(),
{
    if notes.len() == 0 {
        0
    } else {
        notes_text_len(notes.drop_last()) + notes.last()@.len() + 3
    }
}

/// The line shown for one note.
pub open spec fn note_line(note: String) -> Seq<char> {
    seq!['|'] + note@ + seq!['|', '\n']
}

/// The notes of a corridor split around any one of them: first the lines of
/// the farther notes, then the note's own line, then the lines of the
/// nearer ones; and the text is as long as its lines together.
pub proof fn lemma_hall_notes_split(notes: Seq<String>, i: int)
    requires
        0 <= i < notes.len(),
    ensures
        hall_notes_text(notes) == hall_notes_text(notes.subrange(i + 1, notes.len() as int)) + note_line(notes[i])
            + hall_notes_text(notes.subrange(0, i)),
    decreases notes.len(),
{
    let n = notes.len() as int;
    if i == n - 1 {
        assert(notes.subrange(i + 1, n) =~= Seq::<String>::empty());
        assert(notes.subrange(0, i) =~= notes.drop_last());
        assert(hall_notes_text(notes) =~= Seq::<char>::empty() + note_line(notes[i]) + hall_notes_text(notes.drop_last()));
    } else {
        let front = notes.drop_last();
        lemma_hall_notes_split(front, i);
        assert(front.subrange(i + 1, n - 1) =~= notes.subrange(i + 1, n).drop_last());
        assert(front.subrange(0, i) =~= notes.subrange(0, i));
        assert(front[i] == notes[i]);
        assert(notes.subrange(i + 1, n).last() == notes.last());
        assert(hall_notes_text(notes.subrange(i + 1, n)) == note_line(notes.last()) + hall_notes_text(
            front.subrange(i + 1, n - 1),
        ));
        assert(hall_notes_text(notes) =~= hall_notes_text(notes.subrange(i + 1, n)) + note_line(notes[i])
            + hall_notes_text(notes.subrange(0, i)));
    }
}

/// The text of a single note is its line, and the text of two runs of notes
/// one after the other is the text of the later run followed by that of the
/// earlier: the farthest note comes first, one line per note.
pub proof fn lemma_hall_notes_concat(a: Seq<String>, b: Seq<String>, x: String)
    ensures
        hall_notes_text(seq![x]) == note_line(x),
        hall_notes_text(a + b) == hall_notes_text(b) + hall_notes_text(a),
    decreases b.len(),
{
    assert(seq![x].drop_last() =~= Seq::<String>::empty());
    assert(seq![x].last() == x);
    assert(hall_notes_text(Seq::<String>::empty()) == Seq::<char>::empty());
    assert(hall_notes_text(seq![x]) == note_line(x) + hall_notes_text(Seq::<String>::empty()));
    assert(hall_notes_text(seq![x]) =~= note_line(x));
    if b.len() == 0 {
        assert(a + b =~= a);
        assert(hall_notes_text(a + b) =~= hall_notes_text(b) + hall_notes_text(a));
    } else {
        lemma_hall_notes_concat(a, b.drop_last(), x);
        assert((a + b).drop_last() =~= a + b.drop_last());
        assert((a + b).last() == b.last());
        assert(hall_notes_text(a + b) =~= hall_notes_text(b) + hall_notes_text(a));
    }
}

/// The text of the notes is as long as their lines together.
pub proof fn lemma_hall_notes_len(notes: Seq<String>)
    ensures
        hall_notes_text(notes).len() == notes_text_len(notes),
    decreases notes.len(),
{
    if notes.len() > 0 {
        lemma_hall_notes_len(notes.drop_last());
    }
}

fn axis_str(k: u32) -> (r: &'static str)
    requires
        k < 4,
    ensures
        r@ == axis_text(k),
{
    proof {
        reveal_strlit("x ");
        reveal_strlit("y ");
        reveal_strlit("z ");
        reveal_strlit("a ");
    }
    if k == 0 {
        "x "
    } else if k == 1 {
        "y "
    } else if k == 2 {
        "z "
    } else {
        "a "
    }
}

fn digit_str(v: u32) -> (r: &'static str)
    requires
        v < 8,
    ensures
        r@ == seq![digit_char(v as nat)],
{
    proof {
        reveal_strlit("0");
        reveal_strlit("1");
        reveal_strlit("2");
        reveal_strlit("3");
        reveal_strlit("4");
        reveal_strlit("5");
        reveal_strlit("6");
        reveal_strlit("7");
    }
    match v {
        0 => "0",
        1 => "1",
        2 => "2",
        3 => "3",
        4 => "4",
        5 => "5",
        6 => "6",
        _ => "7",
    }
}

/// The head of the label for the corridor faced along `direction`; `None`
/// for an axis beyond the fourth, which has no name.
pub fn hall_label_head(direction: (bool, u32)) -> (r: Option<String>)
    ensures
        direction.1 >= 4 ==> r is None,
        direction.1 < 4 ==> r is Some && r->0@ == hall_head_text(direction),
{
    if direction.1 >= 4 {
        return None;
    }
    let mut result = ".".to_string();
    result.append(axis_str(direction.1));
    if direction.0 {
        result.append("+.\n__\n");
    } else {
        result.append("-.\n__\n");
    }
    proof {
        reveal_strlit(".");
        reveal_strlit("+.\n__\n");
        reveal_strlit("-.\n__\n");
    }
    Some(result)
}

/// The whole corridor label: the head, then the notes seen down the
/// corridor, farthest first.
pub fn hall_label(head: String, notes: Vec<String>) -> (r: String)
    ensures
        r@ == head@ + hall_notes_text(notes@),
        r@.len() == head@.len() + notes_text_len(notes@),
        r@.subrange(0, head@.len() as int) == head@,
        forall|i: int|
            0 <= i < notes@.len() ==> {
                let at = (head@.len() + notes_text_len(notes@.subrange(i + 1, notes@.len() as int))) as int;
                r@.subrange(at, at + notes@[i]@.len() + 3) == #[trigger] note_line(notes@[i])
            },
{
    let mut notes = notes;
    let mut result = head;
    let ghost all = notes@;
    proof {
        reveal_strlit("|");
        reveal_strlit("|\n");
    }
    while notes.len() > 0
        invariant
            result@ + hall_notes_text(notes@) == head@ + hall_notes_text(all),
        decreases notes.len(),
    {
        let ghost before = notes@;
        let note = notes.pop().unwrap();
        proof {
            assert(notes@ =~= before.drop_last());
        }
        let ghost r0 = result@;
        result.append("|");
        result.append(note.as_str());
        result.append("|\n");
        proof {
            reveal_strlit("|");
            reveal_strlit("|\n");
            assert(result@ == r0 + seq!['|'] + note@ + seq!['|', '\n']);
            assert(hall_notes_text(before) == seq!['|'] + note@ + seq!['|', '\n'] + hall_notes_text(notes@));
            assert(result@ + hall_notes_text(notes@) =~= r0 + hall_notes_text(before));
        }
    }
    proof {
        assert(result@ + Seq::<char>::empty() =~= result@);
        lemma_hall_notes_len(all);
        assert(result@.subrange(0, head@.len() as int) =~= head@);
        assert forall|i: int| 0 <= i < all.len() implies {
            let at = (head@.len() + notes_text_len(all.subrange(i + 1, all.len() as int))) as int;
            result@.subrange(at, at + all[i]@.len() + 3) == #[trigger] note_line(all[i])
        } by {
            let far = all.subrange(i + 1, all.len() as int);
            lemma_hall_notes_split(all, i);
            lemma_hall_notes_len(far);
            let at = (head@.len() + notes_text_len(far)) as int;
            assert(result@ == head@ + hall_notes_text(far) + note_line(all[i]) + hall_notes_text(all.subrange(0, i)));
            assert(note_line(all[i]).len() == all[i]@.len() + 3);
            assert(result@.subrange(at, at + all[i]@.len() + 3) =~= note_line(all[i]));
        }
    }
    result
}

/// The state line for the location `get_loc` reports: "You Win!" at the
/// goal, otherwise the coordinates, the direction faced and the note in the
/// cell; `None` when the axis faced has no name.
pub fn state_label(state: (u32, u32, (bool, u32), String)) -> (r: Option<String>)
    ensures
        state.0 == GOAL_POSITION ==> r is Some && r->0@ == seq!['Y', 'o', 'u', ' ', 'W', 'i', 'n', '!'],
        state.0 != GOAL_POSITION && state.2.1 >= 4 ==> r is None,
        state.0 != GOAL_POSITION && state.2.1 < 4 ==> r is Some && r->0@ == state_text(
            state.0 as nat,
            state.1 as nat,
            state.2,
            state.3@,
        ),
        state.0 != GOAL_POSITION && state.2.1 < 4 && state.1 >= 1 ==> ({
            let t = r->0@;
            let n = state.1 as int;
            &&& t.len() > 3 * n + 9
            &&& t.subrange(0, 11) == seq!['P', 'o', 's', 'i', 't', 'i', 'o', 'n', ':', ' ', '(']
            &&& forall|k: int| 0 <= k < n ==> #[trigger] t[11 + 3 * k] == digit_char(digit(state.0 as nat, k as nat))
            &&& forall|k: int| 1 <= k < n ==> #[trigger] t[9 + 3 * k] == ',' && t[10 + 3 * k] == ' '
            &&& t[(3 * n + 9) as int] == ')'
        }),
{
    let mut position = state.0;
    if position == GOAL_POSITION {
        proof {
            reveal_strlit("You Win!");
        }
        return Some("You Win!".to_string());
    }
    let ghost p = state.0 as nat;
    proof {
        reveal_strlit("Position: (");
        reveal_strlit(", ");
        reveal_strlit(") Facing: ");
        reveal_strlit("+ note: ");
        reveal_strlit("- note: ");
        assert(pow8(0) == 1);
    }
    let mut result = "Position: (".to_string();
    let direction = state.2;
    result.append(digit_str(position % 8));
    position = position / 8;
    proof {
        lemma_digit_split(p, 0);
        assert(p / 1 == p);
    }
    let mut counter: u32 = 1;
    while counter < state.1
        invariant
            1 <= counter,
            counter < state.1 ==> counter <= state.1,
            position == p / pow8(counter as nat),
            result@ + coordinates_from(p, counter as nat, state.1 as nat) == seq![
                'P',
                'o',
                's',
                'i',
                't',
                'i',
                'o',
                'n',
                ':',
                ' ',
                '(',
                digit_char(digit(p, 0)),
            ] + coordinates_from(p, 1, state.1 as nat),
        decreases state.1 - counter,
    {
        let ghost r0 = result@;
        result.append(", ");
        result.append(digit_str(position % 8));
        proof {
            lemma_digit_split(p, counter as nat);
            lemma_pow8_pos(counter as nat);
            reveal_strlit(", ");
            assert(digit(p, counter as nat) == position % 8);
            assert(result@ == r0 + seq![',', ' '] + seq![digit_char(digit(p, counter as nat))]);
            assert(coordinates_from(p, counter as nat, state.1 as nat) == seq![',', ' ', digit_char(digit(p, counter as nat))]
                + coordinates_from(p, (counter + 1) as nat, state.1 as nat));
            assert(result@ + coordinates_from(p, (counter + 1) as nat, state.1 as nat) =~= r0 + coordinates_from(p, counter as nat, state.1 as nat));
        }
        position = position / 8;
        counter += 1;
    }
    proof {
        assert(coordinates_from(p, counter as nat, state.1 as nat) =~= Seq::empty());
    }
    result.append(") Facing: ");
    if direction.1 >= 4 {
        return None;
    }
    result.append(axis_str(direction.1));
    if direction.0 {
        result.append("+ note: ");
    } else {
        result.append("- note: ");
    }
    result.append(state.3.as_str());
    proof {
        assert(result@ == state_text(p, state.1 as nat, direction, state.3@));
        if state.1 >= 1 {
            lemma_state_text_layout(p, state.1 as nat, direction, state.3@);
            let t = result@;
            let n = state.1 as int;
            assert(forall|k: int| 0 <= k < n ==> #[trigger] t[11 + 3 * k] == digit_char(digit(state.0 as nat, k as nat)));
            assert(forall|k: int| 1 <= k < n ==> #[trigger] t[9 + 3 * k] == ',' && t[10 + 3 * k] == ' ');
            assert(t[(3 * n + 9) as int] == ')');
        }
    }
    Some(result)
}

/// The corridor labels of the pane, in the order they are laid out and
/// refreshed: for each of the four named axes, the positive end, then the
/// negative end.
pub open spec fn corridor_slots_spec() -> Seq<(bool, u32)> {
    Seq::new(8, |i: int| (i % 2 == 0, (i / 2) as u32))
}

/// The directions of the eight corridor labels, in pane order.
pub fn corridor_slots() -> (slots: Vec<(bool, u32)>)
    ensures
        slots@ == corridor_slots_spec(),
{
    let mut slots: Vec<(bool, u32)> = Vec::new();
    let mut dimension_counter: u32 = 0;
    while dimension_counter < 4
        invariant
            dimension_counter <= 4,
            slots@ == corridor_slots_spec().take(2 * dimension_counter as int),
        decreases 4 - dimension_counter,
    {
        slots.push((true, dimension_counter));
        slots.push((false, dimension_counter));
        proof {
            assert(corridor_slots_spec().take(2 * dimension_counter as int + 2) =~= corridor_slots_spec().take(
                2 * dimension_counter as int,
            ).push((true, dimension_counter)).push((false, dimension_counter)));
        }
        dimension_counter += 1;
    }
    proof {
        assert(corridor_slots_spec().take(8) =~= corridor_slots_spec());
    }
    slots
}

} // verus!
