//! Why a request was interrupted, and how the reason is named and encoded.
use vstd::prelude::*;

use crate::text::same_text;

verus! {

/// Why a request was interrupted. The number that stands for a reason is the one that
/// [`to_u8`](AbortReason::to_u8) gives and [`from_u8`](AbortReason::from_u8) takes; it is not the
/// place of the variant.
#[derive(Clone, Copy, Debug, PartialEq, Eq, Structural)]
pub enum AbortReason {
    ClientDisconnect,
    Timeout,
    Explicit,
    Shutdown,
}

/// The text that Rust's `Debug` formatting gives for a string: the string in double quotes, with
/// special characters escaped.
pub uninterp spec fn debug_text(s: Seq<char>) -> Seq<char>;

/// The `Debug` formatting of a string, as `format!("{:?}", s)` gives it. The contract says only
/// that the output depends on the string alone; the escaping rules are those of std.
#[verifier::external_body]
fn debug_string(s: &str) -> (quoted: String)
    ensures
        quoted@ == debug_text(s@),
{
    format!("{s:?}")
}

/// The error message for a name that is no abort reason, given the `Debug` text of the name.
pub open spec fn unknown_reason(quoted: Seq<char>) -> Seq<char> {
    "unknown abort reason: "@ + quoted
}

/// Builds the error message for an unknown name out of the name's `Debug` text.
pub fn unknown_reason_message(quoted: &str) -> (message: String)
    ensures
        message@ == unknown_reason(quoted@),
{
    let mut message = "unknown abort reason: ".to_owned();
    message.append(quoted);
    message
}

impl AbortReason {
    /// The name of the reason.
    pub open spec fn name(self) -> Seq<char> {
        match self {
            AbortReason::ClientDisconnect => "client_disconnect"@,
            AbortReason::Timeout => "timeout"@,
            AbortReason::Explicit => "explicit"@,
            AbortReason::Shutdown => "shutdown"@,
        }
    }

    /// The number that stands for the reason; 0 stands for none.
    pub open spec fn code(self) -> u8 {
        match self {
            AbortReason::ClientDisconnect => 1,
            AbortReason::Timeout => 2,
            AbortReason::Explicit => 3,
            AbortReason::Shutdown => 4,
        }
    }

    /// The reason with the given number.
    pub open spec fn decode(code: u8) -> Option<AbortReason> {
        if code == 1 {
            Some(AbortReason::ClientDisconnect)
        } else if code == 2 {
            Some(AbortReason::Timeout)
        } else if code == 3 {
            Some(AbortReason::Explicit)
        } else if code == 4 {
            Some(AbortReason::Shutdown)
        } else {
            None
        }
    }

    /// The reason that a caller means by `name`: its own name or a short form of it.
    pub open spec fn named(name: Seq<char>) -> Option<AbortReason> {
        if name == "client_disconnect"@ || name == "disconnect"@ {
            Some(AbortReason::ClientDisconnect)
        } else if name == "timeout"@ {
            Some(AbortReason::Timeout)
        } else if name == "explicit"@ || name == "abort"@ {
            Some(AbortReason::Explicit)
        } else if name == "shutdown"@ {
            Some(AbortReason::Shutdown)
        } else {
            None
        }
    }

    /// The name of the reason.
    pub fn as_str(self) -> (name: &'static str)
        ensures
            name@ == self.name(),
    {
        match self {
            AbortReason::ClientDisconnect => "client_disconnect",
            AbortReason::Timeout => "timeout",
            AbortReason::Explicit => "explicit",
            AbortReason::Shutdown => "shutdown",
        }
    }

    /// The number that stands for the reason.
    pub fn to_u8(self) -> (code: u8)
        ensures
            code == self.code(),
    {
        match self {
            AbortReason::ClientDisconnect => 1,
            AbortReason::Timeout => 2,
            AbortReason::Explicit => 3,
            AbortReason::Shutdown => 4,
        }
    }

    /// The reason with the given number, or `None` where no reason has it.
    pub fn from_u8(v: u8) -> (reason: Option<AbortReason>)
        ensures
            reason == AbortReason::decode(v),
    {
        match v {
            1 => Some(AbortReason::ClientDisconnect),
            2 => Some(AbortReason::Timeout),
            3 => Some(AbortReason::Explicit),
            4 => Some(AbortReason::Shutdown),
            _ => None,
        }
    }
}

impl std::str::FromStr for AbortReason {
    type Err = String;

    /// The reason that `s` names, or a message that quotes `s`.
    fn from_str(s: &str) -> (reason: Result<Self, String>)
        ensures
            match reason {
                Ok(r) => AbortReason::named(s@) == Some(r),
                Err(message) => AbortReason::named(s@) is None && message@ == unknown_reason(
                    debug_text(s@),
                ),
            },
    {
        if same_text(s, "client_disconnect") || same_text(s, "disconnect") {
            Ok(AbortReason::ClientDisconnect)
        } else if same_text(s, "timeout") {
            Ok(AbortReason::Timeout)
        } else if same_text(s, "explicit") || same_text(s, "abort") {
            Ok(AbortReason::Explicit)
        } else if same_text(s, "shutdown") {
            Ok(AbortReason::Shutdown)
        } else {
            let quoted = debug_string(s);
            Err(unknown_reason_message(quoted.as_str()))
        }
    }
}

/// Encoding a reason as a number and decoding the number gives the reason back.
pub proof fn law_code_round_trip(reason: AbortReason)
    ensures
        AbortReason::decode(reason.code()) == Some(reason),
{
}

/// A number decodes to a reason only where it is that reason's own number.
pub proof fn law_decode_is_exact(code: u8)
    ensures
        AbortReason::decode(code) matches Some(reason) ==> reason.code() == code,
        AbortReason::decode(code) is Some <==> 1 <= code <= 4,
{
}

/// Every reason is found again by its own name.
pub proof fn law_name_round_trip(reason: AbortReason)
    ensures
        AbortReason::named(reason.name()) == Some(reason),
{
    reveal_strlit("client_disconnect");
    reveal_strlit("disconnect");
    reveal_strlit("timeout");
    reveal_strlit("explicit");
    reveal_strlit("abort");
    reveal_strlit("shutdown");
    assert("client_disconnect"@[0] == 'c');
    assert("disconnect"@[0] == 'd');
    assert("timeout"@[0] == 't');
    assert("explicit"@[0] == 'e');
    assert("abort"@[0] == 'a');
    assert("shutdown"@[0] == 's');
}

/// The reasons have the numbers 1 to 4, and no other number stands for a reason.
pub proof fn law_numbers_of_reasons(code: u8)
    ensures
        AbortReason::ClientDisconnect.code() == 1,
        AbortReason::Timeout.code() == 2,
        AbortReason::Explicit.code() == 3,
        AbortReason::Shutdown.code() == 4,
        code == 1 ==> AbortReason::decode(code) == Some(AbortReason::ClientDisconnect),
        code == 2 ==> AbortReason::decode(code) == Some(AbortReason::Timeout),
        code == 3 ==> AbortReason::decode(code) == Some(AbortReason::Explicit),
        code == 4 ==> AbortReason::decode(code) == Some(AbortReason::Shutdown),
        code == 0 || code > 4 ==> AbortReason::decode(code) is None,
{
}

/// The reasons have these names.
pub proof fn law_names_of_reasons()
    ensures
        AbortReason::ClientDisconnect.name() == "client_disconnect"@,
        AbortReason::Timeout.name() == "timeout"@,
        AbortReason::Explicit.name() == "explicit"@,
        AbortReason::Shutdown.name() == "shutdown"@,
{
}

/// These texts, letter for letter, mean a reason, and no other text does.
pub proof fn law_texts_that_mean_reasons(text: Seq<char>)
    ensures
        AbortReason::named(text) == Some(AbortReason::ClientDisconnect) <==> (text
            == "client_disconnect"@ || text == "disconnect"@),
        AbortReason::named(text) == Some(AbortReason::Timeout) <==> text == "timeout"@,
        AbortReason::named(text) == Some(AbortReason::Explicit) <==> (text == "explicit"@ || text
            == "abort"@),
        AbortReason::named(text) == Some(AbortReason::Shutdown) <==> text == "shutdown"@,
        AbortReason::named(text) is None <==> (text != "client_disconnect"@ && text
            != "disconnect"@ && text != "timeout"@ && text != "explicit"@ && text != "abort"@
            && text != "shutdown"@),
{
    reveal_strlit("client_disconnect");
    reveal_strlit("disconnect");
    reveal_strlit("timeout");
    reveal_strlit("explicit");
    reveal_strlit("abort");
    reveal_strlit("shutdown");
    assert("client_disconnect"@[0] == 'c');
    assert("disconnect"@[0] == 'd');
    assert("timeout"@[0] == 't');
    assert("explicit"@[0] == 'e');
    assert("abort"@[0] == 'a');
    assert("shutdown"@[0] == 's');
}

/// The message for an unknown name is the fixed beginning with the quoted name behind it.
pub proof fn law_unknown_names_are_quoted(quoted: Seq<char>)
    ensures
        ({
            let message = unknown_reason(quoted);
            let start = "unknown abort reason: "@;
            &&& message.len() == start.len() + quoted.len()
            &&& message.take(start.len() as int) == start
            &&& message.skip(start.len() as int) == quoted
        }),
{
    let message = unknown_reason(quoted);
    let start = "unknown abort reason: "@;
    assert(message.take(start.len() as int) =~= start);
    assert(message.skip(start.len() as int) =~= quoted);
}

} // verus!
