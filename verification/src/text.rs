//! The texts that the thread pool shows: thread names and panic reports.
use vstd::prelude::*;
use vstd::string::StringExecFns;

verus! {

/// The character of a digit below ten.
pub open spec fn digit(d: nat) -> char {
    (48 + d) as char
}

/// A number written in decimal, without leading zeros.
pub open spec fn decimal(n: nat) -> Seq<char>
    decreases n,
{
    if n < 10 {
        seq![digit(n)]
    } else {
        decimal(n / 10).push(digit(n % 10))
    }
}

fn digit_text(d: usize) -> (text: &'static str)
    requires
        d < 10,
    ensures
        text@ == seq![digit(d as nat)],
{
    let text: &'static str = match d {
        0 => "0",
        1 => "1",
        2 => "2",
        3 => "3",
        4 => "4",
        5 => "5",
        6 => "6",
        7 => "7",
        8 => "8",
        _ => "9",
    };
    proof {
        reveal_strlit("0");
        reveal_strlit("1");
        reveal_strlit("2");
        reveal_strlit("3");
        reveal_strlit("4");
        reveal_strlit("5");
        reveal_strlit("6");
        reveal_strlit("7");
        reveal_strlit("8");
        reveal_strlit("9");
        assert(text@ =~= seq![digit(d as nat)]);
    }
    text
}

/// `n` in decimal.
pub fn decimal_text(n: usize) -> (text: String)
    ensures
        text@ == decimal(n as nat),
    decreases n,
{
    let mut text: String = if n < 10 {
        String::new()
    } else {
        decimal_text(n / 10)
    };
    text.append(digit_text(n % 10));
    assert(text@ =~= decimal(n as nat));
    text
}

/// Name of the thread of worker `id`.
pub fn worker_name(id: usize) -> (name: String)
    ensures
        name@ == "worker-"@ + decimal(id as nat),
{
    let mut name: String = String::from_str("worker-");
    name.append(decimal_text(id).as_str());
    name
}

/// What a job panicked with, as far as it can be shown.
pub enum PanicPayload {
    /// A string literal.
    Str(&'static str),
    /// An owned string.
    Text(String),
    /// Anything else.
    Other,
}

/// The text that a panic payload is shown as.
pub open spec fn shown(payload: PanicPayload) -> Seq<char> {
    match payload {
        PanicPayload::Str(text) => text@,
        PanicPayload::Text(text) => text@,
        PanicPayload::Other => "non-string panic payload"@,
    }
}

/// The text of a panic payload.
pub fn panic_message(payload: &PanicPayload) -> (message: String)
    ensures
        message@ == shown(*payload),
        payload matches PanicPayload::Str(text) ==> message@ == text@,
        payload matches PanicPayload::Text(text) ==> message@ == text@,
        payload is Other ==> message@ == "non-string panic payload"@,
{
    match payload {
        PanicPayload::Str(text) => String::from_str(text),
        PanicPayload::Text(text) => text.clone(),
        PanicPayload::Other => String::from_str("non-string panic payload"),
    }
}

/// The line that is logged when a job of worker `id` panics.
pub open spec fn panic_line(id: nat, payload: PanicPayload) -> Seq<char> {
    "worker "@ + decimal(id) + ": job panicked: "@ + shown(payload)
}

/// The line to log when a job of worker `id` panics.
pub fn panic_report(id: usize, payload: &PanicPayload) -> (line: String)
    ensures
        line@ == panic_line(id as nat, *payload),
{
    let mut line: String = String::from_str("worker ");
    line.append(decimal_text(id).as_str());
    line.append(": job panicked: ");
    line.append(panic_message(payload).as_str());
    line
}

/// The number that a text of digits stands for.
pub open spec fn number_of(text: Seq<char>) -> int
    decreases text.len(),
{
    if text.len() == 0 {
        0
    } else {
        10 * number_of(text.drop_last()) + (text.last() as int - '0' as int)
    }
}

/// A number in decimal consists of digits, does not begin with a zero unless it
/// is a single digit, and reads back as the number.
pub proof fn decimal_reads_back(n: nat)
    ensures
        number_of(decimal(n)) == n,
        decimal(n).len() > 0,
        forall|i: int| 0 <= i < decimal(n).len() ==> '0' <= #[trigger] decimal(n)[i] <= '9',
        decimal(n).len() > 1 ==> decimal(n)[0] != '0',
        n > 0 ==> decimal(n)[0] != '0',
    decreases n,
{
    let text = decimal(n);
    if n < 10 {
        assert(text.drop_last() =~= Seq::empty());
        assert(number_of(text.drop_last()) == 0);
    } else {
        decimal_reads_back(n / 10);
        assert(text.drop_last() =~= decimal(n / 10));
        assert forall|i: int| 0 <= i < text.len() implies '0' <= #[trigger] text[i] <= '9' by {
            if i < text.len() - 1 {
                assert(text[i] == decimal(n / 10)[i]);
            }
        }
        assert(text[0] == decimal(n / 10)[0]);
    }
}

/// The line that is logged names the worker by its number and ends with the text
/// of what the job panicked with.
pub proof fn panic_line_tells_worker_and_message(id: nat, payload: PanicPayload)
    ensures
        exists|number: Seq<char>|
            {
                &&& #[trigger] number_of(number) == id
                &&& forall|i: int| 0 <= i < number.len() ==> '0' <= #[trigger] number[i] <= '9'
                &&& panic_line(id, payload) == "worker "@ + number + ": job panicked: "@ + shown(
                    payload,
                )
            },
        payload matches PanicPayload::Str(text) ==> shown(payload) == text@,
        payload matches PanicPayload::Text(text) ==> shown(payload) == text@,
        payload is Other ==> shown(payload) == "non-string panic payload"@,
{
    decimal_reads_back(id);
    assert(number_of(decimal(id)) == id);
}

} // verus!
