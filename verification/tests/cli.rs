use hunkpick::cli::{resolve_color_with, ColorMode, DEFAULT_MAX_INPUT_BYTES};

#[test]
fn never_disables_color() {
    assert!(!resolve_color_with(ColorMode::Never, true, false, false));
}

#[test]
fn always_enables_even_without_tty() {
    assert!(resolve_color_with(ColorMode::Always, false, false, false));
}

#[test]
fn auto_follows_tty_unless_no_color() {
    assert!(resolve_color_with(ColorMode::Auto, true, false, false));
    assert!(!resolve_color_with(ColorMode::Auto, true, true, false));
    assert!(!resolve_color_with(ColorMode::Auto, false, false, false));
}

#[test]
fn auto_clicolor_force_enables_on_non_tty() {
    // CLICOLOR_FORCE turns color on when stdout is not a tty...
    assert!(resolve_color_with(ColorMode::Auto, false, false, true));
    // ...but NO_COLOR still wins over CLICOLOR_FORCE.
    assert!(!resolve_color_with(ColorMode::Auto, false, true, true));
}

/// `NO_COLOR` turns colour off in every mode but `always`, whatever else is set.
#[test]
fn no_color_wins_everywhere_but_always() {
    for tty in [false, true] {
        for force in [false, true] {
            assert!(!resolve_color_with(ColorMode::Auto, tty, true, force));
            assert!(!resolve_color_with(ColorMode::Never, tty, true, force));
            assert!(resolve_color_with(ColorMode::Always, tty, true, force));
        }
    }
}

#[test]
fn default_input_limit_is_64_mib() {
    assert_eq!(DEFAULT_MAX_INPUT_BYTES, 64 * 1024 * 1024);
}
