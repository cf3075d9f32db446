//! What subscribers are told when a stream ends.

use vstd::prelude::*;
use vstd::string::*;

verus! {

/// Why the broadcast of checkpoints gave no checkpoint.
#[derive(Clone, Copy, Debug, PartialEq, Eq, Structural)]
pub enum RecvError {
    /// The receiver was too slow and missed that many checkpoints.
    Lagged(u64),
    /// The broadcast has ended.
    Closed,
}

/// The decimal digit of `d`.
pub open spec fn digit(d: nat) -> char {
    if d == 0 {
        '0'
    } else if d == 1 {
        '1'
    } else if d == 2 {
        '2'
    } else if d == 3 {
        '3'
    } else if d == 4 {
        '4'
    } else if d == 5 {
        '5'
    } else if d == 6 {
        '6'
    } else if d == 7 {
        '7'
    } else if d == 8 {
        '8'
    } else {
        '9'
    }
}

/// `n` in decimal, without leading zeros.
pub open spec fn decimal(n: nat) -> Seq<char>
    decreases n,
{
    if n < 10 {
        seq![digit(n)]
    } else {
        decimal(n / 10).push(digit(n % 10))
    }
}

/// Puts one decimal digit behind `text`.
fn push_digit(text: &mut String, d: u64)
    requires
        d < 10,
    ensures
        final(text)@ == old(text)@.push(digit(d as nat)),
{
    let literal = if d == 0 {
        "0"
    } else if d == 1 {
        "1"
    } else if d == 2 {
        "2"
    } else if d == 3 {
        "3"
    } else if d == 4 {
        "4"
    } else if d == 5 {
        "5"
    } else if d == 6 {
        "6"
    } else if d == 7 {
        "7"
    } else if d == 8 {
        "8"
    } else {
        "9"
    };
    proof {
        reveal_strlit("0");
        reveal_strlit("1");
        reveal_strlit("2");
        reveal_strlit("3");
        reveal_strlit("4");
        reveal_strlit("5");
        reveal_strlit("6");
        reveal_strlit("7");
        reveal_strlit("8");
        reveal_strlit("9");
    }
    text.append(literal);
    assert(text@ =~= old(text)@.push(digit(d as nat)));
}

/// Puts `n` in decimal behind `text`.
pub fn push_decimal(text: &mut String, n: u64)
    ensures
        final(text)@ == old(text)@ + decimal(n as nat),
    decreases n,
{
    if n >= 10 {
        push_decimal(text, n / 10);
    }
    push_digit(text, n % 10);
    assert(text@ =~= old(text)@ + decimal(n as nat));
}

/// What a subscriber is told when the broadcast fails.
pub open spec fn broadcast_error_text(e: RecvError) -> Seq<char> {
    match e {
        RecvError::Lagged(missed_count) => "Subscription too slow: missed "@ + decimal(
            missed_count as nat,
        )
            + " checkpoints. Please reconnect and use the query API to backfill from your last seen sequenceNumber."@,
        RecvError::Closed => "Checkpoint stream has been shut down. Please reconnect."@,
    }
}

/// The message for a broadcast that failed.
pub fn broadcast_error(e: RecvError) -> (res: String)
    ensures
        res@ == broadcast_error_text(e),
        e matches RecvError::Lagged(missed_count) ==> res@ == "Subscription too slow: missed "@
            + decimal(missed_count as nat)
            + " checkpoints. Please reconnect and use the query API to backfill from your last seen sequenceNumber."@,
        e is Closed ==> res@ == "Checkpoint stream has been shut down. Please reconnect."@,
{
    match e {
        RecvError::Lagged(missed_count) => {
            let mut text = "Subscription too slow: missed ".to_owned();
            push_decimal(&mut text, missed_count);
            text.append(
                " checkpoints. Please reconnect and use the query API to backfill from your last seen sequenceNumber.",
            );
            text
        },
        RecvError::Closed => "Checkpoint stream has been shut down. Please reconnect.".to_owned(),
    }
}

/// What a subscriber is told when it cannot be brought to the live tip.
pub open spec fn catch_up_error_text(max_attempts: u32) -> Seq<char> {
    "Failed to catch up to the live tip after "@ + decimal(max_attempts as nat)
        + " recovery attempts; please reconnect."@
}

/// The message for a subscriber that cannot be brought to the live tip.
pub fn catch_up_error(max_attempts: u32) -> (res: String)
    ensures
        res@ == catch_up_error_text(max_attempts),
        res@ == "Failed to catch up to the live tip after "@ + decimal(max_attempts as nat)
            + " recovery attempts; please reconnect."@,
{
    let mut text = "Failed to catch up to the live tip after ".to_owned();
    push_decimal(&mut text, max_attempts as u64);
    text.append(" recovery attempts; please reconnect.");
    text
}

/// The number that a text of decimal digits stands for.
pub open spec fn number(text: Seq<char>) -> int
    decreases text.len(),
{
    if text.len() == 0 {
        0
    } else {
        10 * number(text.drop_last()) + (text.last() as int - '0' as int)
    }
}

/// The decimal text of a number holds digits only, stands for that number, and starts with a
/// zero for zero alone.
pub proof fn law_decimal(n: nat)
    ensures
        number(decimal(n)) == n,
        decimal(n).len() > 0,
        forall|i: int|
            0 <= i < decimal(n).len() ==> '0' as int <= (#[trigger] decimal(n)[i]) as int
                <= '9' as int,
        decimal(n)[0] == '0' ==> n == 0 && decimal(n).len() == 1,
    decreases n,
{
    if n < 10 {
        assert(decimal(n).drop_last() =~= Seq::<char>::empty());
        reveal_with_fuel(number, 2);
    } else {
        law_decimal(n / 10);
        assert(decimal(n).drop_last() =~= decimal(n / 10));
        assert(decimal(n)[0] == decimal(n / 10)[0]);
        assert forall|i: int| 0 <= i < decimal(n).len() implies '0' as int <= (
        #[trigger] decimal(n)[i]) as int <= '9' as int by {
            if i < decimal(n / 10).len() {
                assert(decimal(n)[i] == decimal(n / 10)[i]);
            }
        }
    }
}

} // verus!
