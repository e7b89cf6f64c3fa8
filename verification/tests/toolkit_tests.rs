//! Tests for the toolkit types: verbosity, version stamps, repetition,
//! dump directories, format selection, and permutation validity.

use rand::seq::SliceRandom;

use vpg::dumpfiles::DumpFiles;
use vpg::format::ParityGameFormat;
use vpg::format::guess_format_from_extension;
use vpg::gui;
use vpg::permutation::is_valid_permutation;
use vpg::repeat::Repeat;
use vpg::verbosity::LevelFilter;
use vpg::verbosity::Verbosity;
use vpg::verbosity::VerbosityFlag;
use vpg::verbosity::verbosity_to_log_level_t;
use vpg::version::Version;
use vpg::version::VersionFlag;

#[test]
fn verbosity_flag_selects_levels() {
    assert_eq!(
        VerbosityFlag::new(false, false, false, false).verbosity(),
        Verbosity::Verbose
    );
    assert_eq!(
        VerbosityFlag::new(true, true, true, true).verbosity(),
        Verbosity::Quiet
    );
    assert_eq!(
        VerbosityFlag::new(false, false, true, true).verbosity(),
        Verbosity::Trace
    );
    assert_eq!(
        VerbosityFlag::new(false, false, true, false).verbosity(),
        Verbosity::Debug
    );
    assert_eq!(
        VerbosityFlag::new(false, true, false, false).log_level_filter(),
        LevelFilter::Info
    );
    assert_eq!(
        VerbosityFlag::new(true, false, false, false).log_level_filter(),
        LevelFilter::Off
    );
}

#[test]
fn verbosity_levels_map_to_filters() {
    assert_eq!(Verbosity::Quiet.log_level_filter(), LevelFilter::Off);
    assert_eq!(Verbosity::Verbose.log_level_filter(), LevelFilter::Info);
    assert_eq!(Verbosity::Debug.log_level_filter(), LevelFilter::Debug);
    assert_eq!(Verbosity::Trace.log_level_filter(), LevelFilter::Trace);
}

#[test]
fn gui_verbosity_levels_map_to_filters() {
    assert_eq!(gui::Verbosity::Quiet.log_level_filter(), LevelFilter::Off);
    assert_eq!(gui::Verbosity::Verbose.log_level_filter(), LevelFilter::Info);
    assert_eq!(gui::Verbosity::Debug.log_level_filter(), LevelFilter::Debug);
    assert_eq!(gui::Verbosity::Trace.log_level_filter(), LevelFilter::Trace);
}

#[test]
fn numeric_reporting_levels() {
    assert_eq!(verbosity_to_log_level_t(Verbosity::Quiet), 0);
    assert_eq!(verbosity_to_log_level_t(Verbosity::Verbose), 5);
    assert_eq!(verbosity_to_log_level_t(Verbosity::Debug), 6);
    assert_eq!(verbosity_to_log_level_t(Verbosity::Trace), 7);
}

#[test]
fn version_flag_and_stamp() {
    assert!(VersionFlag::new(true).is_set());
    assert!(!VersionFlag::new(false).is_set());
    let version = Version::new(String::from("0.1.0"), String::from("deadbeef"));
    assert_eq!(version.render(), "0.1.0-deadbeef");
}

#[test]
fn repeat_renders_repetitions() {
    assert_eq!(Repeat::new("ab", 3).render(), "ababab");
    assert_eq!(Repeat::new("x", 0).render(), "");
    assert_eq!(Repeat::new("", 5).render(), "");
}

#[test]
fn dump_files_keeps_directory() {
    let dump = DumpFiles::new(String::from("output"));
    assert_eq!(dump.directory(), "output");
}

#[test]
fn format_guessing() {
    assert_eq!(
        guess_format_from_extension("game.pg", None),
        Some(ParityGameFormat::PG)
    );
    assert_eq!(
        guess_format_from_extension("game.vpg", None),
        Some(ParityGameFormat::VPG)
    );
    assert_eq!(
        guess_format_from_extension("game.svpg", None),
        Some(ParityGameFormat::VPG)
    );
    assert_eq!(guess_format_from_extension("game.txt", None), None);
    assert_eq!(
        guess_format_from_extension("game.txt", Some(ParityGameFormat::PG)),
        Some(ParityGameFormat::PG)
    );
}

#[test]
fn test_random_is_valid_permutation() {
    let mut rng = rand::rng();
    for _ in 0..100 {
        // Generate a valid permutation.
        let valid_permutation: Vec<usize> = {
            let mut order: Vec<usize> = (0..100).collect();
            order.shuffle(&mut rng);
            order
        };

        assert!(is_valid_permutation(
            &valid_permutation,
            valid_permutation.len()
        ));

        // Generate an invalid permutation (duplicate entries).
        let invalid_permutation = vec![0, 1, 2, 3, 4, 5, 6, 7, 8, 8];
        assert!(!is_valid_permutation(
            &invalid_permutation,
            invalid_permutation.len()
        ));

        // Generate an invalid permutation (missing entries).
        let invalid_permutation = vec![0, 1, 3, 4, 5, 6, 7, 8];
        assert!(!is_valid_permutation(
            &invalid_permutation,
            invalid_permutation.len()
        ));
    }
}
