use snmalloc_profile::output::{default_output_path, OutputPath, ENV_PROFILE_OUT, ENV_TEST_OUTPUTS};
use snmalloc_profile::stats_dump::{buffer_size, to_string, write_to, StatsReply};
use snmalloc_profile::SnMalloc;

fn reply(needed: usize, buffer: &[u8], reported: usize) -> StatsReply {
    StatsReply {
        needed,
        buffer: buffer.to_vec(),
        reported,
    }
}

#[test]
fn precedence_chain_exhaustive() {
    assert_eq!(ENV_PROFILE_OUT, "SNMALLOC_PROFILE_OUT");
    assert_eq!(ENV_TEST_OUTPUTS, "TEST_UNDECLARED_OUTPUTS_DIR");

    let p = default_output_path(Some("/tmp/explicit.folded"), Some("/tmp/bazel_should_be_ignored"), 7);
    assert!(matches!(p, OutputPath::Verbatim(ref s) if s == "/tmp/explicit.folded"));

    for out in [Some(""), None] {
        let p = default_output_path(out, Some("/tmp/bazel_outputs"), 7);
        match p {
            OutputPath::InDirectory { directory, file_name } => {
                assert_eq!(directory, "/tmp/bazel_outputs");
                assert_eq!(file_name, "heap.folded");
            }
            other => panic!("unexpected path {other:?}"),
        }
    }

    for outputs in [Some(""), None] {
        let p = default_output_path(None, outputs, 4711);
        match p {
            OutputPath::InTemporary { file_name } => assert_eq!(file_name, "heap_4711.folded"),
            other => panic!("unexpected path {other:?}"),
        }
    }
}

#[test]
fn stats_are_cut_to_what_was_asked_for() {
    let mut out: Vec<u8> = vec![b'>'];
    write_to(&reply(4, b"MALLOC\0", 4), &mut out);
    assert_eq!(out, b">MALL");
    write_to(&reply(3, b"xyzw", 9), &mut out);
    assert_eq!(out, b">MALLxyz");
    write_to(&reply(3, b"xyzw", 1), &mut out);
    assert_eq!(out, b">MALLxyzx");
    write_to(&reply(0, b"", 9), &mut out);
    assert_eq!(out, b">MALLxyzx");
    let mut dumped: Vec<u8> = Vec::new();
    SnMalloc::new(true).dump_stats(&reply(2, b"ab\0", 2), &mut dumped);
    assert_eq!(dumped, b"ab");
}

#[test]
fn stats_buffers_have_room_for_a_zero_byte() {
    assert_eq!(buffer_size(0), None);
    assert_eq!(buffer_size(1), Some(2));
    assert_eq!(buffer_size(4096), Some(4097));
}

#[test]
fn stats_text_is_decoded() {
    assert_eq!(to_string(&reply(0, b"", 0)), "");
    assert_eq!(to_string(&reply(3, b"a\xc3\xa9", 3)), "a\u{e9}");
    assert_eq!(to_string(&reply(3, b"a\xffb", 3)), "a\u{fffd}b");
    assert_eq!(to_string(&reply(2, b"a\xc3\xa9", 3)), "a\u{fffd}");
}

#[test]
fn temporary_files_tell_processes_apart() {
    let name = |pid: u32| match default_output_path(None, None, pid) {
        OutputPath::InTemporary { file_name } => file_name,
        other => panic!("unexpected path {other:?}"),
    };
    assert_eq!(name(1), "heap_1.folded");
    assert_eq!(name(u32::MAX), "heap_4294967295.folded");
    assert_ne!(name(1), name(11));
}
