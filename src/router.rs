use vstd::prelude::*;
use crate::board::{has_id, moved, BoardError, Tasks};
use crate::hub::TaskBoard;
use crate::task::{Task, OPEN};

verus! {

pub open spec fn is_digit(c: char) -> bool {
    '0' <= c <= '9'
}

/// The number that the decimal digits `d` write.
pub open spec fn digits_value(d: Seq<char>) -> nat
    decreases d.len(),
{
    if d.len() == 0 {
        0
    } else {
        digits_value(d.drop_last()) * 10 + (d.last() as nat - '0' as nat) as nat
    }
}

/// The digits of an effort entry: the text without one leading `+`.
pub open spec fn effort_digits(text: Seq<char>) -> Seq<char> {
    if text.len() > 0 && text[0] == '+' {
        text.drop_first()
    } else {
        text
    }
}

/// An effort entry is one or more decimal digits, optionally after a `+`,
/// whose value fits in a `u32`.
pub open spec fn valid_effort(text: Seq<char>) -> bool {
    let d = effort_digits(text);
    &&& d.len() > 0
    &&& forall|i: int| 0 <= i < d.len() ==> is_digit(#[trigger] d[i])
    &&& digits_value(d) <= u32::MAX
}

/// Appending a digit never makes a value smaller.
proof fn lemma_value_grows(d: Seq<char>, i: int)
    requires
        0 <= i <= d.len(),
        forall|k: int| 0 <= k < d.len() ==> is_digit(#[trigger] d[k]),
    ensures
        digits_value(d.subrange(0, i)) <= digits_value(d),
    decreases d.len() - i,
{
    if i < d.len() {
        lemma_value_grows(d, i + 1);
        assert(d.subrange(0, i + 1).drop_last() =~= d.subrange(0, i));
        assert(is_digit(d[i]));
    } else {
        assert(d.subrange(0, i) =~= d);
    }
}

/// Reads a man-days entry: decimal digits, optionally after a `+`, that
/// fit in a `u32`. Anything else is a validation error.
pub fn parse_mandays(text: &str) -> (r: Result<u32, BoardError>)
    ensures
        match r {
            Ok(v) => valid_effort(text@) && v == digits_value(effort_digits(text@)),
            Err(e) => e == BoardError::Validation && !valid_effort(text@),
        },
{
    let n = text.unicode_len();
    let mut i: usize = 0;
    if n > 0 && text.get_char(0) == '+' {
        i = 1;
    }
    let ghost first = i as int;
    let ghost d = effort_digits(text@);
    assert(d =~= text@.subrange(first, n as int));
    if i == n {
        return Err(BoardError::Validation);
    }
    let mut value: u32 = 0;
    while i < n
        invariant
            n == text@.len(),
            0 <= first <= i <= n,
            d == text@.subrange(first, n as int),
            d == effort_digits(text@),
            forall|k: int| 0 <= k < i - first ==> is_digit(#[trigger] d[k]),
            value == digits_value(d.subrange(0, i - first)),
        decreases n - i,
    {
        let c = text.get_char(i);
        assert(d[i - first] == text@[i as int]);
        if !('0' <= c && c <= '9') {
            assert(!is_digit(d[i - first]));
            return Err(BoardError::Validation);
        }
        let digit: u32 = (c as u32) - ('0' as u32);
        assert(d.subrange(0, i + 1 - first).drop_last() =~= d.subrange(0, i - first));
        if value > (u32::MAX - digit) / 10 {
            proof {
                assert(digits_value(d.subrange(0, i + 1 - first)) > u32::MAX) by (nonlinear_arith)
                    requires
                        value > (u32::MAX - digit) / 10,
                        digits_value(d.subrange(0, i + 1 - first)) == value * 10 + digit,
                        digit <= 9;
                if forall|k: int| 0 <= k < d.len() ==> is_digit(#[trigger] d[k]) {
                    lemma_value_grows(d, i + 1 - first);
                }
            }
            return Err(BoardError::Validation);
        }
        value = value * 10 + digit;
        i = i + 1;
    }
    assert(d.subrange(0, n - first) =~= d);
    Ok(value)
}

/// The board as it stands.
pub fn get_board_state(hub: &TaskBoard) -> (r: Tasks)
    requires
        hub.wf(),
    ensures
        r@ == hub.board(),
        r.wf(),
{
    hub.get_board()
}

/// Creates a task from a name, an assignee and a man-days entry as typed.
/// An entry that is not a number of man-days is refused before the board
/// is touched.
pub fn add_task(hub: &mut TaskBoard, name: &str, assignee: &str, mandays: &str) -> (r: Result<Task, BoardError>)
    requires
        old(hub).wf(),
    ensures
        final(hub).wf(),
        match r {
            Ok(t) => {
                &&& valid_effort(mandays@)
                &&& final(hub).board() == old(hub).board().push(t)
                &&& !has_id(old(hub).board(), t.id)
                &&& t.name@ == name@
                &&& t.assignee@ == assignee@
                &&& t.mandays == digits_value(effort_digits(mandays@))
                &&& t.status == OPEN
                &&& TaskBoard::published(old(hub).bus(), final(hub).bus(), final(hub).board())
            },
            Err(e) => {
                &&& e == BoardError::Validation
                &&& !valid_effort(mandays@)
                &&& *final(hub) == *old(hub)
            },
        },
{
    match parse_mandays(mandays) {
        Ok(days) => Ok(hub.create_task(name, assignee, days)),
        Err(e) => Err(e),
    }
}

/// Moves the task `id` by `delta` lanes; an unknown id is reported.
pub fn change_status(hub: &mut TaskBoard, id: u128, delta: i32) -> (r: Result<u128, BoardError>)
    requires
        old(hub).wf(),
    ensures
        final(hub).wf(),
        match r {
            Ok(x) => {
                &&& x == id
                &&& has_id(old(hub).board(), id)
                &&& final(hub).board() == moved(old(hub).board(), id, delta)
                &&& TaskBoard::published(old(hub).bus(), final(hub).bus(), final(hub).board())
            },
            Err(e) => {
                &&& e == BoardError::NotFound
                &&& !has_id(old(hub).board(), id)
                &&& final(hub).board() == old(hub).board()
                &&& final(hub).bus() == old(hub).bus()
            },
        },
{
    hub.move_task(id, delta)
}

} // verus!
