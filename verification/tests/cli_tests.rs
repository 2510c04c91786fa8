use fstsed::cli::{engine_color, exit_status, is_broken_pipe, resolve_color, select_mode, Mode, RootCause};
use fstsed::fstsed::ColorChoice;

#[test]
fn build_goes_before_every_other_mode() {
    assert_eq!(select_mode(true, false, false), Mode::Build);
    assert_eq!(select_mode(true, true, true), Mode::Build);
    assert_eq!(select_mode(false, true, false), Mode::OnlyMatching);
    assert_eq!(select_mode(false, true, true), Mode::OnlyMatching);
    assert_eq!(select_mode(false, false, true), Mode::Json);
    assert_eq!(select_mode(false, false, false), Mode::Plain);
}

#[test]
fn auto_colour_follows_the_terminal() {
    assert_eq!(resolve_color(ColorChoice::Auto, true), ColorChoice::Always);
    assert_eq!(resolve_color(ColorChoice::Auto, false), ColorChoice::Never);
    assert_eq!(resolve_color(ColorChoice::Always, false), ColorChoice::Always);
    assert_eq!(resolve_color(ColorChoice::Never, true), ColorChoice::Never);
    assert_eq!(resolve_color(ColorChoice::AlwaysAnsi, false), ColorChoice::AlwaysAnsi);
}

#[test]
fn json_mode_has_no_colour() {
    assert_eq!(engine_color(Mode::Json, ColorChoice::Always), ColorChoice::Never);
    assert_eq!(engine_color(Mode::Plain, ColorChoice::Always), ColorChoice::Always);
    assert_eq!(engine_color(Mode::OnlyMatching, ColorChoice::Never), ColorChoice::Never);
    assert_eq!(engine_color(Mode::Build, ColorChoice::Always), ColorChoice::Always);
}

#[test]
fn broken_pipe_is_told_from_other_failures() {
    assert!(is_broken_pipe(&RootCause::BrokenPipe));
    assert!(!is_broken_pipe(&RootCause::OtherIo));
    assert!(!is_broken_pipe(&RootCause::NotIo));
}

#[test]
fn broken_pipe_ends_a_run_quietly() {
    assert_eq!(exit_status(Ok(())), 0);
    assert_eq!(exit_status(Err(RootCause::BrokenPipe)), 0);
    assert_eq!(exit_status(Err(RootCause::OtherIo)), 1);
    assert_eq!(exit_status(Err(RootCause::NotIo)), 1);
}
