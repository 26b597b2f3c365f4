use snmalloc_profile::load_bias::find_load_base;
use snmalloc_profile::pprof::corrected_address;

fn maps_fixture(exe_path: &str) -> String {
    format!(
        "555555554000-555555556000 r--p 00000000 08:01 1234       {exe_path}\n\
         555555556000-555555558000 r-xp 00002000 08:01 1234       {exe_path}\n\
         7ffff7c00000-7ffff7c22000 r--p 00000000 08:01 5678       /usr/lib/libc.so.6\n\
         7ffff7fff000-7ffff8000000 rw-p 00000000 00:00 0          \n\
         ffffffffff600000-ffffffffff601000 --xp 00000000 00:00 0  [vdso]\n"
    )
}

#[test]
fn find_load_base_matches_normal_path() {
    let maps = maps_fixture("/usr/bin/myapp");
    let base = find_load_base(&maps, b"/usr/bin/myapp");
    assert_eq!(base, Some(0x555555554000));
}

#[test]
fn find_load_base_handles_path_with_space() {
    let maps = maps_fixture("/mnt/My Files/myapp");
    let base = find_load_base(&maps, b"/mnt/My Files/myapp");
    assert_eq!(base, Some(0x555555554000));
}

#[test]
fn find_load_base_handles_deleted_suffix() {
    let maps = maps_fixture("/usr/bin/myapp (deleted)");
    let base = find_load_base(&maps, b"/usr/bin/myapp (deleted)");
    assert_eq!(base, Some(0x555555554000));
}

#[test]
fn find_load_base_skips_anonymous_mappings() {
    let maps = maps_fixture("/usr/bin/myapp");
    assert_eq!(find_load_base(&maps, b"/no/such/binary"), None);
}

#[test]
fn find_load_base_takes_later_mappings() {
    let maps = maps_fixture("/usr/bin/myapp");
    assert_eq!(find_load_base(&maps, b"/usr/lib/libc.so.6"), Some(0x7ffff7c00000));
    assert_eq!(find_load_base(&maps, b"[vdso]"), Some(0xffffffffff600000));
    assert_eq!(find_load_base(&maps, b""), None);
    assert_eq!(find_load_base("", b"/usr/bin/myapp"), None);
}

#[test]
fn find_load_base_stops_at_a_short_line() {
    let good = "10-20 r-xp 0 0 0 /a\n";
    assert_eq!(find_load_base(good, b"/a"), Some(0x10));
    assert_eq!(find_load_base(&format!("x\n{good}"), b"/a"), None);
    assert_eq!(find_load_base(&format!("{good}x\n"), b"/a"), Some(0x10));
    assert_eq!(find_load_base(&format!("\n{good}"), b"/a"), None);
    assert_eq!(find_load_base(&format!("1-2 3 4 5 6\n{good}"), b"/a"), Some(0x10));
    assert_eq!(find_load_base(&format!("1-2  4 5 6\n{good}"), b"/a"), Some(0x10));
}

#[test]
fn find_load_base_reads_line_ends_and_starts() {
    assert_eq!(find_load_base("a0-b0 p o d i /a\r\n", b"/a"), Some(0xa0));
    assert_eq!(find_load_base("A0-b0 p o d i /a\r", b"/a"), Some(0xa0));
    assert_eq!(find_load_base("a0 p o d i /a", b"/a"), Some(0xa0));
    assert_eq!(find_load_base("zz-b0 p o d i /a", b"/a"), None);
    assert_eq!(find_load_base("-b0 p o d i /a", b"/a"), None);
    assert_eq!(find_load_base("10000000000000000-b0 p o d i /a", b"/a"), None);
    assert_eq!(find_load_base("1-2\tp\u{a0}o d i \u{2003}/\u{e9} \n", "/\u{e9}".as_bytes()), Some(1));
}

#[test]
fn apply_bias_round_trips() {
    let addr = 0x1_0000_2000usize;
    let bias = 0x1_0000_0000usize;
    let corrected = corrected_address(addr, Some(bias)) as usize;
    assert_eq!(bias + corrected, addr);
}

#[test]
fn apply_bias_none_is_identity() {
    let addr = 0xdeadbeefusize;
    assert_eq!(corrected_address(addr, None) as usize, addr);
}

#[test]
fn apply_bias_saturates_instead_of_underflowing() {
    assert_eq!(corrected_address(10, Some(20)), 0);
}
