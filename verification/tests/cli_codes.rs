use armfortas::cli::{
    classify_compile_error, cli_warning_lines, exit_code, CliOutcome, EXIT_COMPILE, EXIT_ICE,
    EXIT_IO, EXIT_LINK, EXIT_OK,
};

#[test]
fn messages_about_files_are_io_errors() {
    for msg in [
        "a.f90: cannot read file",
        "cannot write out.o",
        "No such file or directory",
        "cannot open unit",
    ] {
        assert_eq!(classify_compile_error(msg, 10, 20, 30), 30, "{}", msg);
    }
}

#[test]
fn messages_about_the_linker_are_link_errors() {
    assert_eq!(classify_compile_error("linker failed with status 1", 10, 20, 30), 20);
    assert_eq!(classify_compile_error("ld: symbol not found", 10, 20, 30), 20);
}

#[test]
fn io_errors_come_before_link_errors() {
    assert_eq!(classify_compile_error("ld: cannot open libc", 10, 20, 30), 30);
}

#[test]
fn other_messages_are_compile_errors() {
    assert_eq!(classify_compile_error("", 10, 20, 30), 10);
    assert_eq!(classify_compile_error("cannot rea", 10, 20, 30), 10);
    assert_eq!(classify_compile_error("3:1: error: unexpected '.'", 10, 20, 30), 10);
}

#[test]
fn every_outcome_has_its_code() {
    assert_eq!(exit_code(&CliOutcome::Information), EXIT_OK);
    assert_eq!(exit_code(&CliOutcome::BadArguments("no input file".into())), EXIT_OK);
    assert_eq!(exit_code(&CliOutcome::BadArguments("no input files".into())), EXIT_COMPILE);
    assert_eq!(exit_code(&CliOutcome::BadArguments("cannot read x".into())), EXIT_IO);
    assert_eq!(exit_code(&CliOutcome::WarningsRefused), EXIT_COMPILE);
    assert_eq!(exit_code(&CliOutcome::Compiled), EXIT_OK);
    assert_eq!(exit_code(&CliOutcome::Failed("linker failed".into())), EXIT_LINK);
    assert_eq!(exit_code(&CliOutcome::Crashed), EXIT_ICE);
}

#[test]
fn codes_are_small_numbers_in_order() {
    assert_eq!([EXIT_OK, EXIT_COMPILE, EXIT_LINK, EXIT_IO, EXIT_ICE], [0, 1, 2, 3, 4]);
}

#[test]
fn warnings_are_printed_and_refused_only_as_errors() {
    let w: Vec<String> = vec!["unknown flag -x".into(), "ignored".into()];
    let (lines, stop) = cli_warning_lines("armfortas", &w, false);
    assert_eq!(lines, vec!["armfortas: warning: unknown flag -x", "armfortas: warning: ignored"]);
    assert!(!stop);
    let (lines, stop) = cli_warning_lines("armfortas", &w, true);
    assert_eq!(lines[0], "armfortas: error: unknown flag -x");
    assert!(stop);
    let (lines, stop) = cli_warning_lines("armfortas", &vec![], true);
    assert!(lines.is_empty());
    assert!(!stop);
}
