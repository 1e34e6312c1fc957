//! Interprets a resolved command and drives the stack and the protocol.
//!
//! The surrounding binary parses arguments, searches for candidate paths,
//! reads and writes the backing file, and prints; every decision about what
//! the stack becomes and what line is emitted is made here.

use vstd::prelude::*;
use crate::entry::{Entry, entries_view, path_wf};
use crate::errors::NavError;
use crate::protocol::{format_marker_line, spec_marker_line};
use crate::stack::{Cache, has_id, id_index, spec_next_id, spec_push};

verus! {

/// The three mutually exclusive commands the tool executes.
#[derive(Clone, Copy, Debug, PartialEq, Eq, Structural)]
pub enum Command {
    ChangeForward,
    ChangeBackwards,
    ChangeBackwardsUntil,
}

/// Selects the command from the parsed flags: the backward flag wins, then
/// backward-until, else a forward jump.
pub fn select_command(has_back: bool, has_back_until: bool) -> (c: Command)
    ensures
        has_back ==> c == Command::ChangeBackwards,
        !has_back && has_back_until ==> c == Command::ChangeBackwardsUntil,
        !has_back && !has_back_until ==> c == Command::ChangeForward,
{
    if has_back {
        Command::ChangeBackwards
    } else if has_back_until {
        Command::ChangeBackwardsUntil
    } else {
        Command::ChangeForward
    }
}

/// A required argument's value, or `MissingArgument` when it is absent.
pub fn require_arg<T>(arg: Option<T>) -> (r: Result<T, NavError>)
    ensures
        arg is Some ==> r is Ok && r->Ok_0 == arg->0,
        arg is None ==> r == Err::<T, NavError>(NavError::MissingArgument),
{
    match arg {
        Some(value) => Ok(value),
        None => Err(NavError::MissingArgument),
    }
}

/// Forward jump to a found directory: pushes the path as a new entry and
/// yields that entry together with the marker line to emit. The caller
/// appends the entry's record to the backing file and prints the line.
pub fn change_forward(cache: &mut Cache, path: Vec<u8>, timestamp: u64) -> (r: (Entry, Vec<u8>))
    requires
        old(cache).wf(),
        path_wf(path@),
        spec_next_id(old(cache)@) <= u64::MAX,
    ensures
        final(cache)@ == spec_push(old(cache)@, path@, timestamp),
        final(cache).wf(),
        r.0@ == final(cache)@.last(),
        r.1@ == spec_marker_line(path@),
{
    let line = format_marker_line(path.as_slice());
    let e = cache.push(path, timestamp);
    (e, line)
}

/// Backward jump: pops the top entry and yields it with the marker line
/// naming its path. On an empty history this is a benign no-op: nothing is
/// emitted and the stack (hence the file) is unchanged.
pub fn change_backwards(cache: &mut Cache) -> (r: Option<(Entry, Vec<u8>)>)
    requires
        old(cache).wf(),
    ensures
        old(cache)@.len() == 0 ==> r is None && final(cache)@ == old(cache)@,
        old(cache)@.len() > 0 ==> r is Some && final(cache)@ == old(cache)@.drop_last()
            && (r->0).0@ == old(cache)@.last() && (r->0).1@ == spec_marker_line(
            old(cache)@.last().path,
        ),
        final(cache).wf(),
{
    match cache.try_pop() {
        None => None,
        Some(e) => {
            let line = format_marker_line(e.path.as_slice());
            Some((e, line))
        },
    }
}

/// Backward unwind: removes every entry from the top down to and including
/// the one carrying `id` and yields the batch (most recent first) together
/// with the marker line naming the final destination, the path of the
/// entry carrying `id`. On an unknown identifier: `NotFound`, no mutation,
/// no emission.
pub fn change_backwards_until(cache: &mut Cache, id: u64) -> (r: Result<
    (Vec<Entry>, Vec<u8>),
    NavError,
>)
    requires
        old(cache).wf(),
    ensures
        has_id(old(cache)@, id) ==> r is Ok && entries_view((r->Ok_0).0@) == old(cache)@.skip(
            id_index(old(cache)@, id),
        ).reverse() && final(cache)@ == old(cache)@.take(id_index(old(cache)@, id))
            && (r->Ok_0).1@ == spec_marker_line(old(cache)@[id_index(old(cache)@, id)].path),
        !has_id(old(cache)@, id) ==> r == Err::<(Vec<Entry>, Vec<u8>), NavError>(
            NavError::NotFound,
        ) && final(cache)@ == old(cache)@,
        final(cache).wf(),
{
    let ghost es0 = old(cache)@;
    match cache.try_pop_until(id) {
        Err(e) => Err(e),
        Ok(removed) => {
            proof {
                crate::stack::lemma_id_index(es0, id);
                let i = id_index(es0, id);
                assert(entries_view(removed@).len() == es0.skip(i).reverse().len());
                assert(removed@.len() >= 1);
            }
            let m = removed.len();
            let line = format_marker_line(removed[m - 1].path.as_slice());
            proof {
                let i = id_index(es0, id);
                assert(entries_view(removed@)[m - 1] == es0.skip(i).reverse()[m - 1]);
                assert(es0.skip(i).reverse()[m - 1] == es0.skip(i)[0]);
                assert(es0.skip(i)[0] == es0[i]);
                assert(removed@[m - 1]@ == entries_view(removed@)[m - 1]);
            }
            Ok((removed, line))
        },
    }
}

} // verus!
