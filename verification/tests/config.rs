use snmalloc_profile::config::{parse_bool_env, resolve_rate_from_env, DEFAULT_SAMPLING_RATE_BYTES};
use snmalloc_profile::{ProfileConfig, SnMalloc, ENV_PROFILE_ENABLE, ENV_PROFILE_RATE};

#[test]
fn default_config_is_off() {
    let cfg = ProfileConfig::default();
    assert_eq!(cfg.sampling_rate, 0);
    assert!(!cfg.enable_from_env);
}

#[test]
fn with_sampling_rate_helper() {
    let cfg = ProfileConfig::with_sampling_rate(8192);
    assert_eq!(cfg.sampling_rate, 8192);
    assert!(!cfg.enable_from_env);
}

#[test]
fn configure_profiling_sets_rate() {
    for supported in [true, false] {
        let mut a = SnMalloc::new(supported);
        let saved = a.sampling_rate();
        a.configure_profiling(ProfileConfig::with_sampling_rate(8192), None, None);
        if supported {
            assert_eq!(a.sampling_rate(), 8192);
        } else {
            assert_eq!(a.sampling_rate(), 0);
        }
        a.set_sampling_rate(saved);
        assert_eq!(a.sampling_rate(), saved);
    }
}

#[test]
fn configure_profiling_zero_disables() {
    for supported in [true, false] {
        let mut a = SnMalloc::new(supported);
        a.set_sampling_rate(8192);
        a.configure_profiling(ProfileConfig::default(), None, None);
        assert_eq!(a.sampling_rate(), 0);
    }
}

#[test]
fn configure_profiling_is_idempotent() {
    let mut a = SnMalloc::new(true);
    let cfg = ProfileConfig::with_sampling_rate(4096);
    a.configure_profiling(cfg.clone(), None, None);
    let after_once = a.sampling_rate();
    a.configure_profiling(cfg, None, None);
    let after_twice = a.sampling_rate();
    assert_eq!(after_once, after_twice);
    assert_eq!(after_once, 4096);
}

#[test]
fn parse_bool_env_recognises_documented_inputs() {
    for s in ["1", "true", "TRUE", "True", "yes", "YES", " 1 "] {
        assert_eq!(parse_bool_env(s), Some(true), "input = {s:?}");
    }
    for s in ["0", "false", "FALSE", "no", "NO", "", "  "] {
        assert_eq!(parse_bool_env(s), Some(false), "input = {s:?}");
    }
    for s in ["maybe", "2", "tru", "y"] {
        assert_eq!(parse_bool_env(s), None, "input = {s:?}");
    }
}

#[test]
fn parse_bool_env_trims_unicode_white_space() {
    assert_eq!(parse_bool_env("\u{a0}yes\u{3000}\t"), Some(true));
    assert_eq!(parse_bool_env("\u{200b}yes"), None);
    assert_eq!(parse_bool_env("\u{17f}es"), None);
}

#[test]
fn variable_names() {
    assert_eq!(ENV_PROFILE_RATE, "SNMALLOC_PROFILE_RATE");
    assert_eq!(ENV_PROFILE_ENABLE, "SNMALLOC_PROFILE_ENABLE");
    assert_eq!(DEFAULT_SAMPLING_RATE_BYTES, 512 * 1024);
}

#[test]
fn init_from_env_no_vars_is_noop() {
    let mut a = SnMalloc::new(true);
    a.set_sampling_rate(0);
    let applied = a.init_profiling_from_env(None, None);
    assert_eq!(applied, None, "no env vars -> no rate applied");
    assert_eq!(a.sampling_rate(), 0);

    a.set_sampling_rate(777);
    assert_eq!(a.init_profiling_from_env(None, Some("maybe")), None);
    assert_eq!(a.sampling_rate(), 777);
}

#[test]
fn init_from_env_rate_only() {
    let mut a = SnMalloc::new(true);
    let applied = a.init_profiling_from_env(Some("4096"), None);
    assert_eq!(applied, Some(4096), "RATE=4096 should resolve to Some(4096)");
    assert_eq!(a.sampling_rate(), 4096);

    let mut off = SnMalloc::new(false);
    assert_eq!(off.init_profiling_from_env(Some("4096"), None), Some(4096));
    assert_eq!(off.sampling_rate(), 0);
}

#[test]
fn init_from_env_enable_false() {
    let mut a = SnMalloc::new(true);
    a.set_sampling_rate(8192);
    let applied = a.init_profiling_from_env(None, Some("0"));
    assert_eq!(applied, Some(0), "ENABLE=0 should resolve to Some(0)");
    assert_eq!(a.sampling_rate(), 0, "ENABLE=0 must set the rate to 0");
}

#[test]
fn init_from_env_enable_true_uses_default_rate() {
    let mut a = SnMalloc::new(true);
    a.set_sampling_rate(0);
    let applied = a.init_profiling_from_env(None, Some("1"));
    assert_eq!(applied, Some(524_288));
    assert_eq!(a.sampling_rate(), 524_288);
}

#[test]
fn init_from_env_enable_truthy_aliases() {
    let mut a = SnMalloc::new(true);
    for v in ["true", "TRUE", "yes", " 1 ", "Yes"] {
        a.set_sampling_rate(0);
        let applied = a.init_profiling_from_env(None, Some(v));
        assert_eq!(applied, Some(524_288), "ENABLE={v:?} should be truthy");
    }
}

#[test]
fn init_from_env_rate_overrides_enable() {
    let mut a = SnMalloc::new(true);
    a.set_sampling_rate(0);
    let applied = a.init_profiling_from_env(Some("16384"), Some("0"));
    assert_eq!(applied, Some(16_384), "RATE=16384 should override ENABLE=0");
    assert_eq!(a.sampling_rate(), 16_384);
}

#[test]
fn init_from_env_rate_zero_disables() {
    let mut a = SnMalloc::new(true);
    a.set_sampling_rate(8192);
    let applied = a.init_profiling_from_env(Some("0"), Some("1"));
    assert_eq!(applied, Some(0), "RATE=0 wins, resolves to Some(0)");
    assert_eq!(a.sampling_rate(), 0);
}

#[test]
fn init_from_env_unparseable_rate_falls_through() {
    let mut a = SnMalloc::new(true);
    a.set_sampling_rate(0);
    let applied = a.init_profiling_from_env(Some("not-a-number"), Some("1"));
    assert_eq!(applied, Some(524_288));
}

#[test]
fn configure_profiling_end_to_end() {
    for supported in [true, false] {
        let mut a = SnMalloc::new(supported);
        a.configure_profiling(
            ProfileConfig {
                sampling_rate: 32_768,
                enable_from_env: false,
            },
            None,
            None,
        );
        if supported {
            assert_eq!(a.sampling_rate(), 32_768);
        } else {
            assert_eq!(a.sampling_rate(), 0);
        }
        a.configure_profiling(ProfileConfig::default(), None, None);
        assert_eq!(a.sampling_rate(), 0);
    }
}

#[test]
fn configure_profiling_honours_enable_from_env() {
    let from_env = ProfileConfig {
        sampling_rate: 1,
        enable_from_env: true,
    };
    let mut a = SnMalloc::new(true);
    a.configure_profiling(from_env, Some("8192"), None);
    assert_eq!(a.sampling_rate(), 8192);
    let mut off = SnMalloc::new(false);
    off.configure_profiling(from_env, Some("8192"), None);
    assert_eq!(off.sampling_rate(), 0);
    a.configure_profiling(from_env, None, None);
    assert_eq!(a.sampling_rate(), 524_288);
    a.configure_profiling(from_env, None, Some("no"));
    assert_eq!(a.sampling_rate(), 0);
}

#[test]
fn rates_are_read_as_the_standard_parser_reads_them() {
    for s in [
        "0", "7", "+7", "++7", "+", "-1", "", " ", "12a", "18446744073709551615",
        "18446744073709551616", "99999999999999999999999999999999999999999", "\u{661}", "0x10", "1_000",
        " 65536\n",
    ] {
        assert_eq!(
            resolve_rate_from_env(Some(s), None),
            s.trim().parse::<usize>().ok(),
            "input = {s:?}"
        );
    }
}

#[test]
fn initializing_twice_changes_nothing_more() {
    for supported in [true, false] {
        for (rate, enable) in [
            (Some("4096"), None),
            (Some("junk"), Some("yes")),
            (None, Some("0")),
            (None, Some("maybe")),
            (None, None),
        ] {
            let mut a = SnMalloc::new(supported);
            a.set_sampling_rate(77);
            let first = a.init_profiling_from_env(rate, enable);
            let once = a.sampling_rate();
            assert_eq!(a.init_profiling_from_env(rate, enable), first);
            assert_eq!(a.sampling_rate(), once);
        }
    }
}
