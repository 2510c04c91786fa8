//! What the command line decides before any line is read, and how a run
//! ends.

use vstd::prelude::*;
use crate::fstsed::ColorChoice;

verus! {

/// What a run does.
#[derive(Clone, Copy, Debug, PartialEq, Eq, Structural)]
pub enum Mode {
    /// Build a transducer from lines of JSON.
    Build,
    /// Write the matches only, one to a line.
    OnlyMatching,
    /// Rewrite within the string literals of lines of JSON.
    Json,
    /// Rewrite whole lines.
    Plain,
}

/// The mode that the switches ask for. Building goes before all else,
/// then writing matches only, then JSON.
pub fn select_mode(build: bool, only_matching: bool, json: bool) -> (mode: Mode)
    ensures
        mode == if build {
            Mode::Build
        } else if only_matching {
            Mode::OnlyMatching
        } else if json {
            Mode::Json
        } else {
            Mode::Plain
        },
{
    if build {
        Mode::Build
    } else if only_matching {
        Mode::OnlyMatching
    } else if json {
        Mode::Json
    } else {
        Mode::Plain
    }
}

/// The colour choice with `Auto` settled: colour where the output is a
/// terminal, none where it is not. Any other choice stands.
pub fn resolve_color(choice: ColorChoice, is_terminal: bool) -> (color: ColorChoice)
    ensures
        color == match choice {
            ColorChoice::Auto => if is_terminal {
                ColorChoice::Always
            } else {
                ColorChoice::Never
            },
            other => other,
        },
        color != ColorChoice::Auto,
{
    match choice {
        ColorChoice::Auto => if is_terminal {
            ColorChoice::Always
        } else {
            ColorChoice::Never
        },
        other => other,
    }
}

/// The colour choice that the engine of a run is made with. Within the
/// string literals of JSON no escape sequence can stand, so in that mode
/// there is no colour.
pub fn engine_color(mode: Mode, color: ColorChoice) -> (used: ColorChoice)
    ensures
        used == if mode == Mode::Json {
            ColorChoice::Never
        } else {
            color
        },
{
    if mode == Mode::Json {
        ColorChoice::Never
    } else {
        color
    }
}

/// What lies at the root of a failed run.
#[derive(Clone, Copy, Debug, PartialEq, Eq, Structural)]
pub enum RootCause {
    /// Writing failed because the reader of the output has gone.
    BrokenPipe,
    /// Reading or writing failed in another way.
    OtherIo,
    /// Something else failed.
    NotIo,
}

/// Whether the run failed only because the reader of its output has gone.
pub fn is_broken_pipe(cause: &RootCause) -> (broken: bool)
    ensures
        broken == (*cause == RootCause::BrokenPipe),
{
    match cause {
        RootCause::BrokenPipe => true,
        _ => false,
    }
}

/// The status that a run ends with: 0 where it succeeded or its reader
/// has gone, 1 where it failed in any other way.
pub fn exit_status(outcome: Result<(), RootCause>) -> (status: i32)
    ensures
        status == match outcome {
            Ok(_) => 0i32,
            Err(RootCause::BrokenPipe) => 0i32,
            Err(_) => 1i32,
        },
{
    match outcome {
        Ok(_) => 0,
        Err(cause) => if is_broken_pipe(&cause) {
            0
        } else {
            1
        },
    }
}

} // verus!
