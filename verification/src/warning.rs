//! Warnings about links that are not in order.
use vstd::prelude::*;
use vstd::string::*;
use crate::errors;
use crate::errors::{Error, Failure};
use crate::text;
use crate::text::concat;

verus! {

/// The lines that name causes, one for each message.
pub open spec fn cause_lines(messages: Seq<Seq<char>>) -> Seq<Seq<char>> {
    messages.map_values(|message: Seq<char>| "  caused by: "@ + message)
}

/// The lines of a warning: the failure, and below it each of its causes.
pub open spec fn warning_lines(message: Seq<char>, cause: Option<Error>) -> Seq<Seq<char>> {
    seq!["warn: "@ + message] + cause_lines(errors::messages_of(cause))
}

/// A warning has a line for the failure, and below it one for each cause, in order.
pub proof fn every_cause_gets_a_line(message: Seq<char>, cause: Option<Error>)
    ensures
        warning_lines(message, cause).len() == 1 + errors::messages_of(cause).len(),
        warning_lines(message, cause)[0] == "warn: "@ + message,
        forall|i: int|
            0 <= i < errors::messages_of(cause).len() ==> #[trigger] warning_lines(message, cause)[i
                + 1] == "  caused by: "@ + errors::messages_of(cause)[i],
{
}

/// The lines that warn of a failure: one for the failure itself, and one for each
/// failure in the chain of its causes.
pub fn print_warning<E: Failure>(err: &E) -> (res: Vec<String>)
    ensures
        text::views(res@) == warning_lines(err.spec_message(), err.spec_cause()),
{
    let mut lines: Vec<String> = Vec::new();
    lines.push(concat("warn: ", &err.message()));
    let mut e = err.cause();
    let ghost all = warning_lines(err.spec_message(), err.spec_cause());
    let ghost mut rest: Option<Error> = err.spec_cause();
    proof {
        assert(text::views(lines@) + cause_lines(errors::messages_of(rest)) =~= all);
    }
    while e.is_some()
        invariant
            match e {
                Some(cause) => rest == Some(*cause),
                None => rest is None,
            },
            text::views(lines@) + cause_lines(errors::messages_of(rest)) == all,
        decreases errors::messages_of(rest).len(),
    {
        let cause = e.unwrap();
        let ghost before = lines@;
        lines.push(concat("  caused by: ", &cause.message()));
        e = cause.cause();
        proof {
            errors::lemma_messages(*cause);
            rest = cause.spec_cause();
            assert(text::views(lines@) =~= text::views(before).push(lines@.last()@));
            assert(text::views(lines@) + cause_lines(errors::messages_of(rest)) =~= all);
        }
    }
    proof {
        assert(text::views(lines@) =~= all);
    }
    lines
}

} // verus!
