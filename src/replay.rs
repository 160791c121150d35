//! The input that replays a grid into the machine's text editor.
use crate::parser::OrcaSource;
use vstd::prelude::*;

verus! {

/// The arrow keys that move the editor's cursor.
#[derive(Clone, Copy, Debug, PartialEq, Eq, Structural)]
pub enum Key {
    Down,
    Left,
    Right,
}

/// One input event handed to the machine.
#[derive(Clone, Copy, Debug, PartialEq, Eq, Structural)]
pub enum InputEvent {
    /// A character typed, as its byte.
    Char(u8),
    Pressed(Key),
    Released(Key),
}

/// The byte that the machine receives for a typed character: its code point,
/// truncated to eight bits.
pub open spec fn char_byte(c: char) -> u8 {
    ((c as u32) % 256) as u8
}

/// For each character of `row`: type it, then press and release the right arrow.
pub open spec fn typed_events(row: Seq<char>) -> Seq<InputEvent>
    decreases row.len(),
{
    if row.len() == 0 {
        Seq::empty()
    } else {
        typed_events(row.drop_last()) + seq![
            InputEvent::Char(char_byte(row.last())),
            InputEvent::Pressed(Key::Right),
            InputEvent::Released(Key::Right),
        ]
    }
}

/// `n` presses and releases of the left arrow.
pub open spec fn left_returns(n: nat) -> Seq<InputEvent>
    decreases n,
{
    if n == 0 {
        Seq::empty()
    } else {
        left_returns((n - 1) as nat) + seq![
            InputEvent::Pressed(Key::Left),
            InputEvent::Released(Key::Left),
        ]
    }
}

/// The events of one row: its characters, a move down, and back to column 0.
pub open spec fn row_events(row: Seq<char>) -> Seq<InputEvent> {
    typed_events(row) + seq![InputEvent::Pressed(Key::Down), InputEvent::Released(Key::Down)]
        + left_returns(row.len())
}

/// The events of all rows, top to bottom.
pub open spec fn grid_events(rows: Seq<Seq<char>>) -> Seq<InputEvent>
    decreases rows.len(),
{
    if rows.len() == 0 {
        Seq::empty()
    } else {
        grid_events(rows.drop_last()) + row_events(rows.last())
    }
}

fn char_to_byte(c: char) -> (r: u8)
    ensures
        r == char_byte(c),
{
    ((c as u32) % 256) as u8
}

/// The events that type `source` into the editor, row by row.
pub fn replay_events(source: &OrcaSource) -> (r: Vec<InputEvent>)
    requires
        source.wf(),
    ensures
        r@ == grid_events(source.rows()),
{
    let mut out: Vec<InputEvent> = Vec::new();
    let mut it = source.iter_lines();
    let ghost rows = source.rows();
    assert(rows.take(0) =~= Seq::<Seq<char>>::empty());
    loop
        invariant
            it@.0 == rows,
            it@.1 <= rows.len(),
            out@ == grid_events(rows.take(it@.1 as int)),
        ensures
            it@.1 == rows.len(),
            out@ == grid_events(rows.take(it@.1 as int)),
        decreases rows.len() - it@.1,
    {
        let ghost done = it@.1;
        let line = match it.next() {
            Some(l) => l,
            None => {
                break ;
            },
        };
        let ghost base = out@;
        let mut j: usize = 0;
        assert(line@.take(0) =~= Seq::<char>::empty());
        while j < line.len()
            invariant
                j <= line@.len(),
                out@ == base + typed_events(line@.take(j as int)),
            decreases line.len() - j,
        {
            out.push(InputEvent::Char(char_to_byte(line[j])));
            out.push(InputEvent::Pressed(Key::Right));
            out.push(InputEvent::Released(Key::Right));
            assert(line@.take(j + 1).drop_last() =~= line@.take(j as int));
            assert(out@ =~= base + typed_events(line@.take(j + 1)));
            j = j + 1;
        }
        assert(line@.take(j as int) =~= line@);
        out.push(InputEvent::Pressed(Key::Down));
        out.push(InputEvent::Released(Key::Down));
        let ghost mid = out@;
        let mut k: usize = 0;
        while k < line.len()
            invariant
                k <= line@.len(),
                out@ == mid + left_returns(k as nat),
            decreases line.len() - k,
        {
            out.push(InputEvent::Pressed(Key::Left));
            out.push(InputEvent::Released(Key::Left));
            assert(out@ =~= mid + left_returns((k + 1) as nat));
            k = k + 1;
        }
        assert(rows.take(done as int + 1).drop_last() =~= rows.take(done as int));
        assert(out@ =~= grid_events(rows.take(done as int + 1)));
    }
    assert(rows.take(rows.len() as int) =~= rows);
    out
}


/// How many events of `s` pass `f`.
pub open spec fn count_where(s: Seq<InputEvent>, f: spec_fn(InputEvent) -> bool) -> nat
    decreases s.len(),
{
    if s.len() == 0 {
        0
    } else {
        count_where(s.drop_last(), f) + if f(s.last()) {
            1nat
        } else {
            0nat
        }
    }
}

/// The test for a typed character.
pub open spec fn is_typed() -> spec_fn(InputEvent) -> bool {
    |e: InputEvent| e is Char
}

/// The test for one given event.
pub open spec fn is_event(x: InputEvent) -> spec_fn(InputEvent) -> bool {
    |e: InputEvent| e == x
}

proof fn lemma_count_add(a: Seq<InputEvent>, b: Seq<InputEvent>, f: spec_fn(InputEvent) -> bool)
    ensures
        count_where(a + b, f) == count_where(a, f) + count_where(b, f),
    decreases b.len(),
{
    if b.len() == 0 {
        assert(a + b =~= a);
    } else {
        lemma_count_add(a, b.drop_last(), f);
        assert((a + b).drop_last() =~= a + b.drop_last());
    }
}

proof fn lemma_count_two(x: InputEvent, y: InputEvent, f: spec_fn(InputEvent) -> bool)
    ensures
        count_where(seq![x, y], f) == (if f(x) {
            1nat
        } else {
            0nat
        }) + (if f(y) {
            1nat
        } else {
            0nat
        }),
{
    assert(seq![x, y].drop_last() =~= seq![x]);
    assert(seq![x].drop_last() =~= Seq::<InputEvent>::empty());
    assert(count_where(Seq::<InputEvent>::empty(), f) == 0);
    assert(count_where(seq![x], f) == count_where(Seq::<InputEvent>::empty(), f) + (if f(x) {
        1nat
    } else {
        0nat
    }));
}

proof fn lemma_count_three(
    x: InputEvent,
    y: InputEvent,
    z: InputEvent,
    f: spec_fn(InputEvent) -> bool,
)
    ensures
        count_where(seq![x, y, z], f) == (if f(x) {
            1nat
        } else {
            0nat
        }) + (if f(y) {
            1nat
        } else {
            0nat
        }) + (if f(z) {
            1nat
        } else {
            0nat
        }),
{
    assert(seq![x, y, z].drop_last() =~= seq![x, y]);
    lemma_count_two(x, y, f);
}

/// The counts of each kind of event in the events of one row.
pub open spec fn row_counts_hold(events: Seq<InputEvent>, typed: nat, right: nat, left: nat, down: nat) -> bool {
    &&& count_where(events, is_typed()) == typed
    &&& count_where(events, is_event(InputEvent::Pressed(Key::Right))) == right
    &&& count_where(events, is_event(InputEvent::Released(Key::Right))) == right
    &&& count_where(events, is_event(InputEvent::Pressed(Key::Left))) == left
    &&& count_where(events, is_event(InputEvent::Released(Key::Left))) == left
    &&& count_where(events, is_event(InputEvent::Pressed(Key::Down))) == down
    &&& count_where(events, is_event(InputEvent::Released(Key::Down))) == down
}

proof fn lemma_counts_concat(
    a: Seq<InputEvent>,
    b: Seq<InputEvent>,
    ta: nat,
    ra: nat,
    la: nat,
    da: nat,
    tb: nat,
    rb: nat,
    lb: nat,
    db: nat,
)
    requires
        row_counts_hold(a, ta, ra, la, da),
        row_counts_hold(b, tb, rb, lb, db),
    ensures
        row_counts_hold(a + b, ta + tb, ra + rb, la + lb, da + db),
{
    lemma_count_add(a, b, is_typed());
    lemma_count_add(a, b, is_event(InputEvent::Pressed(Key::Right)));
    lemma_count_add(a, b, is_event(InputEvent::Released(Key::Right)));
    lemma_count_add(a, b, is_event(InputEvent::Pressed(Key::Left)));
    lemma_count_add(a, b, is_event(InputEvent::Released(Key::Left)));
    lemma_count_add(a, b, is_event(InputEvent::Pressed(Key::Down)));
    lemma_count_add(a, b, is_event(InputEvent::Released(Key::Down)));
}

proof fn lemma_typed_counts(row: Seq<char>)
    ensures
        row_counts_hold(typed_events(row), row.len(), row.len(), 0, 0),
    decreases row.len(),
{
    if row.len() == 0 {
        lemma_counts_empty();
    } else {
        lemma_typed_counts(row.drop_last());
        let b = seq![
            InputEvent::Char(char_byte(row.last())),
            InputEvent::Pressed(Key::Right),
            InputEvent::Released(Key::Right),
        ];
        lemma_counts_small(b[0], b[1], b[2]);
        lemma_counts_concat(
            typed_events(row.drop_last()),
            b,
            (row.len() - 1) as nat,
            (row.len() - 1) as nat,
            0,
            0,
            1,
            1,
            0,
            0,
        );
    }
}

proof fn lemma_counts_empty()
    ensures
        row_counts_hold(Seq::empty(), 0, 0, 0, 0),
{
}

proof fn lemma_counts_small(x: InputEvent, y: InputEvent, z: InputEvent)
    ensures
        x is Char && y == InputEvent::Pressed(Key::Right) && z == InputEvent::Released(Key::Right)
            ==> row_counts_hold(seq![x, y, z], 1, 1, 0, 0),
        x == InputEvent::Pressed(Key::Left) && y == InputEvent::Released(Key::Left)
            ==> row_counts_hold(seq![x, y], 0, 0, 1, 0),
        x == InputEvent::Pressed(Key::Down) && y == InputEvent::Released(Key::Down)
            ==> row_counts_hold(seq![x, y], 0, 0, 0, 1),
{
    lemma_count_three(x, y, z, is_typed());
    lemma_count_three(x, y, z, is_event(InputEvent::Pressed(Key::Right)));
    lemma_count_three(x, y, z, is_event(InputEvent::Released(Key::Right)));
    lemma_count_three(x, y, z, is_event(InputEvent::Pressed(Key::Left)));
    lemma_count_three(x, y, z, is_event(InputEvent::Released(Key::Left)));
    lemma_count_three(x, y, z, is_event(InputEvent::Pressed(Key::Down)));
    lemma_count_three(x, y, z, is_event(InputEvent::Released(Key::Down)));
    lemma_count_two(x, y, is_typed());
    lemma_count_two(x, y, is_event(InputEvent::Pressed(Key::Right)));
    lemma_count_two(x, y, is_event(InputEvent::Released(Key::Right)));
    lemma_count_two(x, y, is_event(InputEvent::Pressed(Key::Left)));
    lemma_count_two(x, y, is_event(InputEvent::Released(Key::Left)));
    lemma_count_two(x, y, is_event(InputEvent::Pressed(Key::Down)));
    lemma_count_two(x, y, is_event(InputEvent::Released(Key::Down)));
}

proof fn lemma_left_counts(n: nat)
    ensures
        row_counts_hold(left_returns(n), 0, 0, n, 0),
    decreases n,
{
    if n == 0 {
        lemma_counts_empty();
    } else {
        lemma_left_counts((n - 1) as nat);
        let x = InputEvent::Pressed(Key::Left);
        let y = InputEvent::Released(Key::Left);
        lemma_counts_small(x, y, x);
        lemma_counts_concat(left_returns((n - 1) as nat), seq![x, y], 0, 0, (n - 1) as nat, 0, 0, 0, 1, 0);
    }
}

proof fn lemma_row_counts(row: Seq<char>)
    ensures
        row_counts_hold(row_events(row), row.len(), row.len(), row.len(), 1),
{
    let x = InputEvent::Pressed(Key::Down);
    let y = InputEvent::Released(Key::Down);
    lemma_typed_counts(row);
    lemma_counts_small(x, y, x);
    lemma_left_counts(row.len());
    lemma_counts_concat(typed_events(row), seq![x, y], row.len(), row.len(), 0, 0, 0, 0, 0, 1);
    lemma_counts_concat(
        typed_events(row) + seq![x, y],
        left_returns(row.len()),
        row.len(),
        row.len(),
        0,
        1,
        0,
        0,
        row.len(),
        0,
    );
}

proof fn lemma_grid_counts(rows: Seq<Seq<char>>, w: nat)
    requires
        forall|i: int| 0 <= i < rows.len() ==> (#[trigger] rows[i]).len() == w,
    ensures
        row_counts_hold(grid_events(rows), rows.len() * w, rows.len() * w, rows.len() * w, rows.len()),
    decreases rows.len(),
{
    if rows.len() == 0 {
        lemma_counts_empty();
    } else {
        let front = rows.drop_last();
        assert forall|i: int| 0 <= i < front.len() implies (#[trigger] front[i]).len() == w by {
            assert(front[i] == rows[i]);
        }
        lemma_grid_counts(front, w);
        lemma_row_counts(rows.last());
        let m = front.len();
        assert(rows.last().len() == w);
        lemma_counts_concat(grid_events(front), row_events(rows.last()), m * w, m * w, m * w, m, w, w, w, 1);
        assert(m * w + w == (m + 1) * w) by (nonlinear_arith);
    }
}

/// Replaying a grid of `R` rows of width `W` types `R*W` characters, presses and
/// releases the right arrow `R*W` times and the left arrow `R*W` times, and
/// presses and releases the down arrow `R` times.
pub proof fn lemma_replay_event_counts(source: OrcaSource)
    requires
        source.wf(),
    ensures
        ({
            let r = source.rows().len();
            let w = source.width as nat;
            row_counts_hold(grid_events(source.rows()), r * w, r * w, r * w, r)
        }),
{
    let rows = source.rows();
    let w = source.width as int;
    let n = source.data@.len() as int;
    assert forall|i: int| 0 <= i < rows.len() implies (#[trigger] rows[i]).len() == w by {
        vstd::arithmetic::div_mod::lemma_fundamental_div_mod(n, w);
        assert(i * w + w <= n) by (nonlinear_arith)
            requires
                0 <= i < n / w,
                n == w * (n / w) + n % w,
                n % w == 0,
                w > 0,
        ;
    }
    lemma_grid_counts(rows, w as nat);
}

} // verus!
