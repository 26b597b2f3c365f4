use std::collections::HashMap;
use std::io::Read;

use snmalloc_profile::allocator::RawSample;
use snmalloc_profile::gzip::read_pprof_gz;
use snmalloc_profile::intern::StringTable;
use snmalloc_profile::pprof::{
    corrected_address, hex_addr, write_pprof_resolved, write_pprof_symbolized, write_pprof_with_bias,
};
use snmalloc_profile::wire::{tag, varint, write_packed_uint64};
use snmalloc_profile::{BtSample, HeapProfile, ResolvedFrame, SnMalloc, SymbolCache, Weight};

const WIRE_TYPE_VARINT: u32 = 0;
const WIRE_TYPE_LEN: u32 = 2;

fn sample(requested: usize, allocated: usize, weight: usize, stack: Vec<usize>) -> BtSample {
    BtSample {
        alloc_ptr: 0,
        requested_size: requested,
        allocated_size: allocated,
        weight,
        stack,
    }
}

fn frame(address: usize, name: Option<&str>, file: Option<&str>, line: Option<u32>) -> ResolvedFrame {
    ResolvedFrame {
        address,
        name: name.map(String::from),
        file: file.map(String::from),
        line,
    }
}

fn read_varint(buf: &[u8]) -> (u64, usize) {
    let mut value: u64 = 0;
    let mut shift: u32 = 0;
    for (i, &b) in buf.iter().enumerate() {
        value |= ((b & 0x7f) as u64) << shift;
        if b & 0x80 == 0 {
            return (value, i + 1);
        }
        shift += 7;
        assert!(shift < 70, "varint overflow at offset {}", i);
    }
    panic!("truncated varint");
}

fn walk<F: FnMut(u32, u32, &[u8])>(buf: &[u8], mut visit: F) {
    let mut i: usize = 0;
    while i < buf.len() {
        let (tag, n) = read_varint(&buf[i..]);
        i += n;
        let field = (tag >> 3) as u32;
        let wire = (tag & 0x7) as u32;
        match wire {
            WIRE_TYPE_LEN => {
                let (len, n) = read_varint(&buf[i..]);
                i += n;
                let end = i + len as usize;
                visit(field, wire, &buf[i..end]);
                i = end;
            }
            WIRE_TYPE_VARINT => {
                let start = i;
                let (_v, n) = read_varint(&buf[i..]);
                i += n;
                visit(field, wire, &buf[start..start + n]);
            }
            _ => panic!("unsupported wire type {} for field {}", wire, field),
        }
    }
}

fn packed(buf: &[u8]) -> Vec<u64> {
    let mut values = Vec::new();
    let mut j = 0usize;
    while j < buf.len() {
        let (v, n) = read_varint(&buf[j..]);
        j += n;
        values.push(v);
    }
    values
}

#[derive(Default, Debug)]
struct Decoded {
    sample_types: Vec<(u64, u64)>,
    samples: Vec<(Vec<u64>, Vec<u64>)>,
    locations: Vec<(u64, u64, u64, u64, u64)>,
    functions: Vec<(u64, u64, u64, u64, u64)>,
    strings: Vec<String>,
    default_sample_type: Option<u64>,
    period_type: Option<(u64, u64)>,
    period: Option<u64>,
}

fn numbers(buf: &[u8]) -> Vec<(u32, u64)> {
    let mut out = Vec::new();
    walk(buf, |f, w, p| {
        if w == WIRE_TYPE_VARINT {
            out.push((f, read_varint(p).0));
        }
    });
    out
}

fn decode(buf: &[u8]) -> Decoded {
    let mut out = Decoded::default();
    walk(buf, |field, wire, payload| match (field, wire) {
        (1, WIRE_TYPE_LEN) => {
            let n = numbers(payload);
            assert_eq!(n.len(), 2);
            out.sample_types.push((n[0].1, n[1].1));
        }
        (2, WIRE_TYPE_LEN) => {
            let mut parts: Vec<Vec<u64>> = Vec::new();
            let mut fields: Vec<u32> = Vec::new();
            walk(payload, |f, w, p| {
                assert_eq!(w, WIRE_TYPE_LEN);
                fields.push(f);
                parts.push(packed(p));
            });
            assert_eq!(fields, vec![1, 2]);
            let values = parts.pop().unwrap();
            let locations = parts.pop().unwrap();
            out.samples.push((locations, values));
        }
        (4, WIRE_TYPE_LEN) => {
            let n = numbers(payload);
            let mut line = Vec::new();
            walk(payload, |f, w, p| {
                if f == 4 && w == WIRE_TYPE_LEN {
                    line = numbers(p);
                }
            });
            out.locations.push((n[0].1, n[1].1, n[2].1, line[0].1, line[1].1));
        }
        (5, WIRE_TYPE_LEN) => {
            let n = numbers(payload);
            out.functions.push((n[0].1, n[1].1, n[2].1, n[3].1, n[4].1));
        }
        (6, WIRE_TYPE_LEN) => out.strings.push(String::from_utf8(payload.to_vec()).unwrap()),
        (11, WIRE_TYPE_LEN) => {
            let n = numbers(payload);
            out.period_type = Some((n[0].1, n[1].1));
        }
        (12, WIRE_TYPE_VARINT) => out.period = Some(read_varint(payload).0),
        (14, WIRE_TYPE_VARINT) => out.default_sample_type = Some(read_varint(payload).0),
        _ => panic!("unexpected field {field}"),
    });
    out
}

fn text(d: &Decoded, slot: u64) -> &str {
    &d.strings[slot as usize]
}

fn two_samples() -> HeapProfile {
    HeapProfile::from_samples(vec![
        sample(64, 64, 4096, vec![0x1, 0x2]),
        sample(100, 128, 8192, vec![0x3]),
    ])
}

fn live_snapshot() -> HeapProfile {
    let mut a = SnMalloc::new(true);
    a.set_sampling_rate(512);
    let mut slots = Vec::new();
    for i in 0..60usize {
        slots.push(Some(RawSample {
            alloc_ptr: 0x1000 * (i + 1),
            requested_size: 64,
            allocated_size: 64 + (i % 3) * 16,
            weight: 512 + i,
            stack_depth: 2,
            stack: vec![0x10 + i % 7, 0x20, 0, 0],
            kind: 0,
        }));
    }
    a.snapshot(&slots)
}

#[test]
fn varint_round_trip() {
    let cases: &[(u64, &[u8])] = &[
        (0, &[0x00]),
        (1, &[0x01]),
        (127, &[0x7f]),
        (128, &[0x80, 0x01]),
        (300, &[0xac, 0x02]),
        (16384, &[0x80, 0x80, 0x01]),
    ];
    for &(v, expected) in cases {
        let mut buf: Vec<u8> = Vec::new();
        varint(&mut buf, v);
        assert_eq!(buf.as_slice(), expected, "varint({}) mismatch", v);
    }
    let mut buf: Vec<u8> = vec![9];
    varint(&mut buf, u64::MAX);
    assert_eq!(buf.len(), 11);
    assert_eq!(read_varint(&buf[1..]), (u64::MAX, 10));
}

#[test]
fn empty_profile_is_valid() {
    let p = HeapProfile::default();
    let mut buf: Vec<u8> = Vec::new();
    write_pprof_with_bias(&p, Weight::Allocated, None, &mut buf);

    assert!(!buf.is_empty(), "empty profile produced zero bytes");

    let bytes = &buf[..];
    for needle in &["alloc_objects", "count", "alloc_space", "bytes"] {
        assert!(
            bytes.windows(needle.len()).any(|w| w == needle.as_bytes()),
            "expected string {:?} in empty Profile output",
            needle
        );
    }
    let d = decode(&buf);
    assert_eq!(d.strings, vec!["", "alloc_objects", "count", "alloc_space", "bytes"]);
    assert_eq!(d.sample_types, vec![(1, 2), (3, 4)]);
    assert_eq!(d.default_sample_type, Some(3));
    assert_eq!(d.period_type, None);
    assert_eq!(d.period, None);
}

#[test]
fn empty_profile_bytes() {
    let mut buf: Vec<u8> = Vec::new();
    write_pprof_with_bias(&HeapProfile::default(), Weight::Requested, Some(5), &mut buf);
    let mut expected: Vec<u8> = vec![0x0a, 4, 0x08, 1, 0x10, 2, 0x0a, 4, 0x08, 3, 0x10, 4, 0x32, 0];
    for s in ["alloc_objects", "count", "alloc_space", "bytes"] {
        expected.push(0x32);
        expected.push(s.len() as u8);
        expected.extend_from_slice(s.as_bytes());
    }
    expected.extend_from_slice(&[0x70, 3]);
    assert_eq!(buf, expected);
}

#[test]
fn alloc_space_axis_matches_total_allocated_bytes() {
    let p = two_samples();
    let mut buf: Vec<u8> = Vec::new();
    write_pprof_with_bias(&p, Weight::Allocated, None, &mut buf);

    let d = decode(&buf);
    let total: i64 = d.samples.iter().map(|s| s.1[1] as i64).sum();
    assert_eq!(total, p.total_allocated_bytes() as i64);
    assert_eq!(total, 4096 + 8192 * 128 / 100);
    assert!(d.samples.iter().all(|s| s.1[0] == 1));
}

#[test]
fn alloc_space_axis_matches_total_requested_bytes() {
    let p = HeapProfile::from_samples(vec![sample(100, 128, 8192, vec![0x3])]);
    let mut buf: Vec<u8> = Vec::new();
    write_pprof_with_bias(&p, Weight::Requested, None, &mut buf);

    let d = decode(&buf);
    let total: i64 = d.samples.iter().map(|s| s.1[1] as i64).sum();
    assert_eq!(total, p.total_requested_bytes() as i64);
    assert_eq!(total, 8192);
}

#[test]
fn unique_frames_dedup_function_and_location() {
    let shared = 0xdeadbeefusize;
    let p = HeapProfile::from_samples(vec![
        sample(64, 64, 4096, vec![shared, 0x1]),
        sample(64, 64, 4096, vec![shared, 0x2]),
    ]);
    let mut buf: Vec<u8> = Vec::new();
    write_pprof_with_bias(&p, Weight::Allocated, None, &mut buf);

    let d = decode(&buf);
    assert_eq!(d.locations.len(), 3, "expected 3 unique locations");
    assert_eq!(d.functions.len(), 3, "expected 3 unique functions");
    assert_eq!(d.samples[0].0, vec![1, 2]);
    assert_eq!(d.samples[1].0, vec![1, 3]);
    for (i, f) in d.functions.iter().enumerate() {
        assert_eq!(f.0, i as u64 + 1);
        assert_eq!(f.1, f.2);
        assert_eq!((f.3, f.4), (0, 0));
        assert_eq!(d.locations[i].0, f.0);
        assert_eq!(d.locations[i].1, 0);
        assert_eq!(d.locations[i].3, f.0);
        assert_eq!(d.locations[i].4, 0);
    }
    assert_eq!(text(&d, d.functions[0].1), "0x00000000deadbeef");
    assert_eq!(text(&d, d.functions[2].1), "0x0000000000000002");
}

#[test]
fn string_table_slot_zero_is_empty() {
    let mut t = StringTable::new();
    assert_eq!(t.intern(""), 0);
    assert_eq!(t.intern(""), 0);
    assert_eq!(t.intern("alloc_objects"), 1);
}

#[test]
fn string_table_slots_are_stable() {
    let mut t = StringTable::new();
    let words = ["zeta", "alpha", "mid", "\u{e9}", "alpha", "zz", "a", "zeta"];
    let slots: Vec<u32> = words.iter().map(|w| t.intern(w)).collect();
    assert_eq!(slots, vec![1, 2, 3, 4, 2, 5, 6, 1]);
    let strings: Vec<String> = t.into_strings().iter().map(|s| s.iter().collect()).collect();
    assert_eq!(strings, vec!["", "zeta", "alpha", "mid", "\u{e9}", "zz", "a"]);
}

#[test]
fn corrected_address_subtracts_bias() {
    assert_eq!(corrected_address(0x2000, Some(0x1000)), 0x1000);
    assert_eq!(corrected_address(0x2000, None), 0x2000);
    assert_eq!(corrected_address(0x100, Some(0x2000)), 0);
}

#[test]
fn hex_addr_has_sixteen_digits() {
    let s: String = hex_addr(0x10a4b9c30).iter().collect();
    assert_eq!(s, "0x000000010a4b9c30");
    let s: String = hex_addr(usize::MAX).iter().collect();
    assert_eq!(s, "0xffffffffffffffff");
}

#[test]
fn write_pprof_with_bias_corrects_location_addresses() {
    let raw_addrs: [usize; 2] = [0x1_0000_3000, 0x1_0000_4000];
    let bias: usize = 0x1_0000_0000;
    let p = HeapProfile::from_samples(vec![sample(64, 64, 4096, raw_addrs.to_vec())]);

    let mut buf: Vec<u8> = Vec::new();
    write_pprof_with_bias(&p, Weight::Allocated, Some(bias), &mut buf);

    let mut got: Vec<u64> = decode(&buf).locations.iter().map(|l| l.2).collect();
    got.sort_unstable();
    let mut want: Vec<u64> = raw_addrs.iter().map(|&a| (a - bias) as u64).collect();
    want.sort_unstable();
    assert_eq!(got, want, "Location.address must be bias-corrected");

    for &raw in &raw_addrs {
        assert!(
            !got.contains(&(raw as u64)),
            "found uncorrected raw address {raw:#x} in output"
        );
    }
}

#[test]
fn write_pprof_with_bias_none_emits_raw_addresses() {
    let raw_addr = 0x1_0000_3000usize;
    let p = HeapProfile::from_samples(vec![sample(64, 64, 4096, vec![raw_addr])]);

    let mut buf: Vec<u8> = Vec::new();
    write_pprof_with_bias(&p, Weight::Allocated, None, &mut buf);

    let got: Vec<u64> = decode(&buf).locations.iter().map(|l| l.2).collect();
    assert_eq!(got, vec![raw_addr as u64]);
}

#[test]
fn output_is_appended() {
    let mut buf: Vec<u8> = vec![1, 2, 3];
    write_pprof_with_bias(&two_samples(), Weight::Allocated, None, &mut buf);
    let mut plain: Vec<u8> = Vec::new();
    write_pprof_with_bias(&two_samples(), Weight::Allocated, None, &mut plain);
    assert_eq!(&buf[..3], &[1, 2, 3]);
    assert_eq!(&buf[3..], &plain[..]);
}

#[test]
fn empty_packed_field_is_a_record_of_length_zero() {
    let mut buf: Vec<u8> = Vec::new();
    write_packed_uint64(&mut buf, 1, &vec![]);
    assert_eq!(buf, vec![0x0a, 0]);
    write_packed_uint64(&mut buf, 2, &vec![1, 300]);
    assert_eq!(buf, vec![0x0a, 0, 0x12, 3, 1, 0xac, 0x02]);

    let p = HeapProfile::from_samples(vec![sample(1, 1, 7, vec![])]);
    let mut buf: Vec<u8> = Vec::new();
    write_pprof_with_bias(&p, Weight::Allocated, None, &mut buf);
    let d = decode(&buf);
    assert_eq!(d.samples, vec![(vec![], vec![1, 7])]);
    assert!(d.locations.is_empty());
}

#[test]
fn alloc_values_keep_the_low_word() {
    let p = HeapProfile::from_samples(vec![sample(1, usize::MAX, 3, vec![0x1])]);
    let mut buf: Vec<u8> = Vec::new();
    write_pprof_with_bias(&p, Weight::Allocated, None, &mut buf);
    let want = (3u128 * usize::MAX as u128) as i64 as u64;
    assert_eq!(decode(&buf).samples[0].1[1], want);
}

#[test]
fn resolved_names_files_and_lines_are_written() {
    let p = HeapProfile::from_samples(vec![sample(64, 64, 4096, vec![0x1, 0x2, 0x3])]);
    let mut resolved: HashMap<usize, ResolvedFrame> = HashMap::new();
    resolved.insert(0x1, frame(0x1, Some("app::make"), Some("src/app.rs"), Some(300)));
    resolved.insert(0x2, frame(0x2, Some("bytes"), None, None));
    let mut buf: Vec<u8> = Vec::new();
    write_pprof_resolved(&p, Weight::Allocated, None, &resolved, &mut buf);
    let d = decode(&buf);
    assert_eq!(
        d.strings,
        vec![
            "",
            "alloc_objects",
            "count",
            "alloc_space",
            "bytes",
            "app::make",
            "src/app.rs",
            "0x0000000000000003"
        ]
    );
    assert_eq!(d.functions[0], (1, 5, 5, 6, 0));
    assert_eq!(d.functions[1], (2, 4, 4, 0, 0));
    assert_eq!(d.functions[2], (3, 7, 7, 0, 0));
    assert_eq!(d.locations[0].4, 300);
    assert_eq!(d.locations[1].4, 0);
}

#[test]
fn symbolized_allocation_profile_knows_this_program() {
    let here = symbolized_allocation_profile_knows_this_program as fn() as usize;
    let p = HeapProfile::from_samples(vec![sample(64, 64, 4096, vec![here + 1, 0x1])]);
    let mut cache = SymbolCache::new();
    let mut buf: Vec<u8> = Vec::new();
    write_pprof_symbolized(&p, Weight::Allocated, None, &mut cache, &mut buf);
    let d = decode(&buf);
    assert!(text(&d, d.functions[0].1).contains("symbolized_allocation_profile_knows_this_program"));
    assert_eq!(text(&d, d.functions[1].1), "0x0000000000000001");
    assert!(cache.get(here + 1).is_some());
}

#[test]
fn write_pprof_smoke() {
    let snap = live_snapshot();
    let mut buf: Vec<u8> = Vec::new();
    snap.write_pprof(&mut buf, Weight::Allocated, None);
    assert!(!buf.is_empty(), "pprof bytes unexpectedly empty");
    assert_ne!(buf[0], 0x1f);
    assert_eq!(buf[0], 0x0a);

    let decoded = decode(&buf);
    assert_eq!(decoded.sample_types.len(), 2);
    assert_eq!(decoded.samples.len(), snap.len());
    assert!(!decoded.functions.is_empty());
    assert!(!decoded.locations.is_empty());
    assert_eq!(decoded.strings[0], "");
    for needle in &["inuse_objects", "inuse_space", "count", "bytes", "space"] {
        assert!(decoded.strings.iter().any(|s| s == needle));
    }
    let dst = decoded.default_sample_type.expect("default_sample_type missing");
    assert_eq!(decoded.strings[dst as usize], "inuse_space");
    let (period_type, period_unit) = decoded.period_type.expect("period_type missing");
    assert_eq!(decoded.strings[period_type as usize], "space");
    assert_eq!(decoded.strings[period_unit as usize], "bytes");
    assert_eq!(decoded.period, Some(512));
    assert_eq!(text(&decoded, decoded.sample_types[0].0), "inuse_objects");
    assert_eq!(text(&decoded, decoded.sample_types[0].1), "count");
    assert_eq!(text(&decoded, decoded.sample_types[1].0), "inuse_space");
    assert_eq!(text(&decoded, decoded.sample_types[1].1), "bytes");
}

#[test]
fn write_pprof_empty_snapshot() {
    let p = HeapProfile::default();
    assert!(p.is_empty());

    let mut buf: Vec<u8> = Vec::new();
    p.write_pprof(&mut buf, Weight::Allocated, None);
    assert!(!buf.is_empty());

    let decoded = decode(&buf);
    assert_eq!(decoded.samples.len(), 0);
    assert_eq!(decoded.locations.len(), 0);
    assert_eq!(decoded.functions.len(), 0);
    assert_eq!(decoded.sample_types.len(), 2);
    assert!(decoded.default_sample_type.is_some());
    assert!(decoded.strings.iter().any(|s| s == "inuse_space"));
    assert!(decoded.strings.iter().any(|s| s == "inuse_objects"));
    assert!(decoded.period_type.is_some());
    assert_eq!(decoded.period, None);
}

#[test]
fn pprof_inuse_space_matches_tcmalloc_weight_identity() {
    let snap = live_snapshot();
    let mut buf: Vec<u8> = Vec::new();
    snap.write_pprof(&mut buf, Weight::Allocated, None);

    let decoded = decode(&buf);
    let expected: u128 = snap
        .samples()
        .iter()
        .map(|s| {
            (s.weight as u128).saturating_mul(s.allocated_size as u128)
                / (s.requested_size as u128 + 1)
        })
        .sum();
    let total: u128 = decoded.samples.iter().map(|s| s.1[1] as u128).sum();
    assert_eq!(total, expected);
    let objects: u128 = decoded.samples.iter().map(|s| s.1[0] as u128).sum();
    let want: u128 = snap.samples().iter().map(|s| s.weight as u128 / (s.requested_size as u128 + 1)).sum();
    assert_eq!(objects, want);
}

#[test]
fn pprof_weight_argument_makes_no_difference() {
    let snap = live_snapshot();
    let mut a: Vec<u8> = Vec::new();
    let mut b: Vec<u8> = Vec::new();
    snap.write_pprof(&mut a, Weight::Allocated, Some(0x10));
    snap.write_pprof(&mut b, Weight::Requested, Some(0x10));
    assert_eq!(a, b);
}

#[test]
fn inuse_values_of_one_sample() {
    let p = HeapProfile::from_samples(vec![sample(99, 112, 1000, vec![0x1]), sample(0, 16, 5, vec![])]);
    let mut buf: Vec<u8> = Vec::new();
    p.write_pprof(&mut buf, Weight::Allocated, None);
    let d = decode(&buf);
    assert_eq!(d.samples[0].1, vec![10, 1120]);
    assert_eq!(d.samples[1].1, vec![5, 80]);
}

#[test]
fn pprof_stack_starts_at_application_allocation_site() {
    let p = HeapProfile::from_samples(vec![
        sample(64, 64, 4096, vec![0x1, 0x2, 0x3, 0x4, 0x5]),
        sample(64, 64, 4096, vec![0x1, 0x2]),
    ]);
    let mut resolved: HashMap<usize, ResolvedFrame> = HashMap::new();
    resolved.insert(0x1, frame(0x1, Some("sn_rust_alloc"), None, None));
    resolved.insert(0x2, frame(0x2, Some("snmalloc_sys::alloc"), None, None));
    resolved.insert(0x3, frame(0x3, Some("demo::app_alloc"), Some("demo.rs"), Some(7)));
    resolved.insert(0x5, frame(0x5, Some("__rust_alloc"), None, None));
    let mut buf: Vec<u8> = Vec::new();
    p.write_pprof_resolved(&mut buf, Weight::Allocated, None, &resolved);
    let decoded = decode(&buf);

    assert!(decoded.strings.iter().any(|name| name.contains("app_alloc")));
    for name in &decoded.strings {
        assert!(
            !name.starts_with("snmalloc::")
                && !name.starts_with("snmalloc_rs::")
                && !name.starts_with("snmalloc_sys::")
                && !name.starts_with("sn_rust_"),
            "allocator frame was not stripped from pprof stack: {name}"
        );
    }
    assert_eq!(decoded.samples[0].0, vec![1, 2, 3]);
    assert_eq!(decoded.samples[1].0, Vec::<u64>::new());
    assert_eq!(text(&decoded, decoded.functions[0].1), "demo::app_alloc");
    assert_eq!(text(&decoded, decoded.functions[1].1), "0x0000000000000004");
    assert_eq!(text(&decoded, decoded.functions[2].1), "__rust_alloc");
}

#[test]
fn symbolized_live_profile_knows_this_program() {
    let here = symbolized_live_profile_knows_this_program as fn() as usize;
    let p = HeapProfile::from_samples(vec![sample(64, 64, 4096, vec![here + 1])]);
    let mut cache = SymbolCache::new();
    let mut buf: Vec<u8> = Vec::new();
    p.write_pprof_symbolized(&mut buf, Weight::Allocated, None, &mut cache);
    let d = decode(&buf);
    assert!(text(&d, d.functions[0].1).contains("symbolized_live_profile_knows_this_program"));

    let mut gz: Vec<u8> = Vec::new();
    p.write_pprof_gz_symbolized(&mut gz, Weight::Allocated, None, &mut cache);
    assert_eq!(read_pprof_gz(&gz), Some(buf));
}

#[test]
fn write_pprof_gz_has_gzip_magic() {
    let snap = live_snapshot();
    let mut buf: Vec<u8> = Vec::new();
    snap.write_pprof_gz(&mut buf, Weight::Allocated, None);
    assert!(buf.len() >= 2);
    assert_eq!(buf[0], 0x1f);
    assert_eq!(buf[1], 0x8b);
}

#[test]
fn write_pprof_gz_round_trips_to_write_pprof() {
    let snap = live_snapshot();
    let weight = Weight::Allocated;

    let mut gz: Vec<u8> = Vec::new();
    snap.write_pprof_gz(&mut gz, weight, Some(3));

    let mut uncompressed: Vec<u8> = Vec::new();
    snap.write_pprof(&mut uncompressed, weight, Some(3));

    let mut decoded: Vec<u8> = Vec::new();
    flate2::read::GzDecoder::new(gz.as_slice())
        .read_to_end(&mut decoded)
        .expect("gzip decode succeeds");

    assert_eq!(decoded.len(), uncompressed.len());
    assert_eq!(decoded, uncompressed);
    assert!(gz.len() >= 18);
    assert_ne!(gz, uncompressed);
    assert_eq!(read_pprof_gz(&gz), Some(uncompressed));
}

#[test]
fn write_pprof_gz_empty_snapshot() {
    let p = HeapProfile::default();
    assert!(p.is_empty());

    let mut gz: Vec<u8> = Vec::new();
    p.write_pprof_gz(&mut gz, Weight::Allocated, None);

    assert!(gz.len() >= 2);
    assert_eq!(gz[0], 0x1f);
    assert_eq!(gz[1], 0x8b);

    let mut uncompressed: Vec<u8> = Vec::new();
    p.write_pprof(&mut uncompressed, Weight::Allocated, None);

    let mut decoded: Vec<u8> = Vec::new();
    flate2::read::GzDecoder::new(gz.as_slice())
        .read_to_end(&mut decoded)
        .expect("gzip decode succeeds even on tiny payload");

    assert_eq!(decoded, uncompressed);
}

#[test]
fn streams_that_are_no_gzip_are_refused() {
    assert_eq!(read_pprof_gz(&[]), None);
    assert_eq!(read_pprof_gz(b"plain text, no stream"), None);
    let mut gz: Vec<u8> = Vec::new();
    HeapProfile::default().write_pprof_gz(&mut gz, Weight::Allocated, None);
    gz.truncate(gz.len() - 1);
    assert_eq!(read_pprof_gz(&gz), None);
}

#[test]
fn tags_hold_a_field_number_and_a_wire_type() {
    let bytes = |number: u32, wire: u32| {
        let mut out = Vec::new();
        tag(&mut out, number, wire);
        out
    };
    assert_eq!(bytes(1, 0), vec![0x08]);
    assert_eq!(bytes(6, 2), vec![0x32]);
    assert_eq!(bytes(14, 0), vec![0x70]);
    assert_eq!(bytes(16, 2), vec![0x82, 0x01]);
    assert_eq!(bytes(0x2000_0001, 2), bytes(1, 2));
}
