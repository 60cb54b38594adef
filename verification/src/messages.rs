//! What receiving a datagram comes to, in words.

use vstd::prelude::*;
use vstd::string::StringExecFns;
use vstd::utf8::{decode_utf8, valid_utf8};
use crate::registry::{Registry, is_queued};
use crate::spevents::SpEvents;
use crate::time::Duration;

verus! {

/// The longest datagram that is received whole.
pub const MAX_MSG_SIZE: usize = 1024;

/// How an attempt to receive a datagram ended.
pub enum Received {
    /// These bytes came from this address.
    Message { bytes: Vec<u8>, from: String },
    /// There was nothing to read.
    WouldBlock,
    /// It failed, with this error.
    Failed { error: String },
}

/// The digits of `n` in base ten.
pub open spec fn decimal(n: nat) -> Seq<char>
    decreases n,
{
    if n < 10 {
        seq![digit(n)]
    } else {
        decimal(n / 10).push(digit(n % 10))
    }
}

/// The digit that stands for `n`, which is less than ten.
pub open spec fn digit(n: nat) -> char {
    seq!['0', '1', '2', '3', '4', '5', '6', '7', '8', '9'][n as int]
}

/// The line that tells how receiving ended.
pub open spec fn report(outcome: Received) -> Seq<char> {
    match outcome {
        Received::Message { bytes, from } => "Received "@ + decimal(bytes@.len())
            + " bytes from "@ + from@ + ": "@ + decode_utf8(bytes@),
        Received::WouldBlock => "Nothing to read! Would block"@,
        Received::Failed { error } => "Error receiving! "@ + error@,
    }
}

/// The number that `digits` stand for in base ten.
pub open spec fn number(digits: Seq<char>) -> int
    decreases digits.len(),
{
    if digits.len() == 0 {
        0
    } else {
        number(digits.drop_last()) * 10 + (digits.last() as int - '0' as int)
    }
}

/// The digits of a number stand for it: they are digits, the first is not a zero unless it is the
/// only one, and read back they give the number.
pub proof fn law_decimal_reads_back(n: nat)
    ensures
        number(decimal(n)) == n,
        decimal(n).len() > 0,
        decimal(n).len() > 1 ==> decimal(n)[0] != '0',
        n > 0 ==> decimal(n)[0] != '0',
        forall|i: int|
            0 <= i < decimal(n).len() ==> '0' as int <= #[trigger] decimal(n)[i] as int
                <= '9' as int,
    decreases n,
{
    if n < 10 {
        reveal_with_fuel(number, 2);
        assert(decimal(n).drop_last() == Seq::<char>::empty());
    } else {
        law_decimal_reads_back(n / 10);
        let init = decimal(n / 10);
        assert(decimal(n) == init.push(digit(n % 10)));
        assert(decimal(n).drop_last() == init);
        assert(n == (n / 10) * 10 + n % 10);
        assert(decimal(n)[0] == init[0]);
    }
}

/// The line about a datagram tells its length in bytes, where it came from and the text that it
/// encodes, in this order.
pub proof fn law_report_tells_the_message(outcome: Received)
    ensures
        outcome matches Received::Message { bytes, from } ==> exists|digits: Seq<char>|
            {
                &&& #[trigger] number(digits) == bytes@.len()
                &&& digits.len() == 1 || digits.len() > 1 && digits[0] != '0'
                &&& forall|i: int|
                    0 <= i < digits.len() ==> '0' as int <= #[trigger] digits[i] as int
                        <= '9' as int
                &&& report(outcome) == "Received "@ + digits + " bytes from "@ + from@ + ": "@
                    + decode_utf8(bytes@)
            },
{
    if let Received::Message { bytes, from } = outcome {
        law_decimal_reads_back(bytes@.len());
    }
}

/// The line about an attempt that brought nothing says so, and that about one that failed ends with
/// the error.
pub proof fn law_report_tells_the_failure(outcome: Received)
    ensures
        outcome is WouldBlock ==> report(outcome) == "Nothing to read! Would block"@,
        outcome matches Received::Failed { error } ==> report(outcome).len()
            == "Error receiving! "@.len() + error@.len() && "Error receiving! "@.is_prefix_of(
            report(outcome),
        ) && error@.is_suffix_of(report(outcome)),
{
}

/// `core::str::Utf8Error`, of whose inside nothing is known.
#[verifier::external_type_specification]
#[verifier::external_body]
pub struct ExUtf8Error(core::str::Utf8Error);

/// `core::str::from_utf8` takes bytes for text. Claimed is that it does so where they are valid
/// UTF-8 and nowhere else, and that the text is what they encode.
pub assume_specification[ core::str::from_utf8 ](bytes: &[u8]) -> (text: Result<
    &str,
    core::str::Utf8Error,
>)
    ensures
        text is Ok <==> valid_utf8(bytes@),
        text matches Ok(decoded) ==> decoded@ == decode_utf8(bytes@),
;

/// The digit that stands for `n`.
fn digit_text(n: usize) -> (text: &'static str)
    requires
        n < 10,
    ensures
        text@ == seq![digit(n as nat)],
{
    proof {
        reveal_strlit("0");
        reveal_strlit("1");
        reveal_strlit("2");
        reveal_strlit("3");
        reveal_strlit("4");
        reveal_strlit("5");
        reveal_strlit("6");
        reveal_strlit("7");
        reveal_strlit("8");
        reveal_strlit("9");
    }
    match n {
        0 => "0",
        1 => "1",
        2 => "2",
        3 => "3",
        4 => "4",
        5 => "5",
        6 => "6",
        7 => "7",
        8 => "8",
        _ => "9",
    }
}

/// Appends the digits of `n` to `line`.
fn append_decimal(line: &mut String, n: usize)
    ensures
        final(line)@ == old(line)@ + decimal(n as nat),
    decreases n,
{
    if n >= 10 {
        append_decimal(line, n / 10);
    }
    line.append(digit_text(n % 10));
}

/// The line that tells how receiving ended.
pub fn receive_msg(outcome: &Received) -> (line: String)
    requires
        outcome matches Received::Message { bytes, .. } ==> valid_utf8(bytes@),
    ensures
        line@ == report(*outcome),
{
    let mut line = String::new();
    match outcome {
        Received::Message { bytes, from } => {
            line.append("Received ");
            append_decimal(&mut line, bytes.len());
            line.append(" bytes from ");
            line.append(from.as_str());
            line.append(": ");
            if let Ok(text) = core::str::from_utf8(bytes.as_slice()) {
                line.append(text);
            }
        },
        Received::WouldBlock => {
            line.append("Nothing to read! Would block");
        },
        Received::Failed { error } => {
            line.append("Error receiving! ");
            line.append(error.as_str());
        },
    }
    line
}

/// The first half of what follows a datagram that starts more traffic: the line that tells how
/// receiving ended, with `sum` scheduled in a second. A second receiver is to be attached then.
pub fn receive_msg2<C, F>(events: &mut SpEvents<C, F>, outcome: &Received, sum: C) -> (line: String)
    requires
        outcome matches Received::Message { bytes, .. } ==> valid_utf8(bytes@),
    ensures
        line@ == report(*outcome),
        is_queued(old(events)@, sum, 1_000_000_000, final(events)@),
        old(events)@.wf() ==> final(events)@.wf(),
{
    let line = receive_msg(outcome);
    events.e_queue(sum, Duration::from_secs(1));
    line
}

/// The second half of it, once the second receiver is attached: the callbacks that send to it are
/// scheduled in two seconds and in seven.
pub fn schedule_messages<C, F>(events: &mut SpEvents<C, F>, test: C, another: C)
    ensures
        exists|between: Registry<C, F>|
            is_queued(old(events)@, test, 2_000_000_000, between) && #[trigger] is_queued(
                between,
                another,
                7_000_000_000,
                final(events)@,
            ),
        old(events)@.wf() ==> final(events)@.wf(),
{
    events.e_queue(test, Duration::from_secs(2));
    let ghost between = events@;
    events.e_queue(another, Duration::from_secs(7));
    assert(is_queued(between, another, 7_000_000_000, events@));
}

} // verus!
