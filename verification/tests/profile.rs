use std::collections::HashMap;

use snmalloc_profile::allocator::{LookupReply, RawSample};
use snmalloc_profile::flamegraph::{render_stack_key, render_stack_key_symbolized};
use snmalloc_profile::symbols::{merge_symbols, resolve_one, RawSymbol};
use snmalloc_profile::{
    clear_symbol_cache, BtSample, HeapProfile, ResolvedFrame, SampleKind, SnMalloc, SymbolCache, Weight,
};

fn sample(requested: usize, allocated: usize, weight: usize, stack: Vec<usize>) -> BtSample {
    BtSample {
        alloc_ptr: 0,
        requested_size: requested,
        allocated_size: allocated,
        weight,
        stack,
    }
}

fn named(address: usize, name: &str) -> ResolvedFrame {
    ResolvedFrame {
        address,
        name: Some(name.to_string()),
        file: None,
        line: None,
    }
}

fn raw(stack_depth: usize, kind: u8) -> RawSample {
    RawSample {
        alloc_ptr: 0x7000,
        requested_size: 60,
        allocated_size: 64,
        weight: 512,
        stack_depth,
        stack: vec![0x11, 0x12, 0x13],
        kind,
    }
}

fn weights(text: &str) -> u128 {
    let mut sum: u128 = 0;
    for line in text.lines() {
        let mut it = line.rsplitn(2, ' ');
        let w: u128 = it.next().unwrap().parse().unwrap();
        let _stack = it.next().unwrap();
        sum += w;
    }
    sum
}

#[test]
fn profile_profiling_supported_matches_feature() {
    assert!(SnMalloc::new(true).profiling_supported());
    assert!(!SnMalloc::new(false).profiling_supported());
}

#[test]
fn sampling_rate_round_trip() {
    for supported in [true, false] {
        let mut a = SnMalloc::new(supported);
        let saved = a.sampling_rate();
        a.set_sampling_rate(8192);
        if supported {
            assert_eq!(a.sampling_rate(), 8192);
        } else {
            assert_eq!(a.sampling_rate(), 0);
        }
        a.set_sampling_rate(saved);
        assert_eq!(a.sampling_rate(), saved);
    }
}

#[test]
fn sampling_rate_roundtrips_when_supported() {
    let mut a = SnMalloc::new(true);
    a.set_sampling_rate(4096);
    assert_eq!(a.sampling_rate(), 4096);
    a.set_sampling_rate(1);
    assert_eq!(a.sampling_rate(), 1);
}

#[test]
fn snapshot_is_callable() {
    let a = SnMalloc::new(true);
    let snap = a.snapshot(&vec![]);
    let _ = snap.len();
    let _ = snap.is_empty();
    let _ = snap.total_allocated_bytes();
    let _ = snap.total_requested_bytes();
}

#[test]
fn snapshot_returns_owned_profile() {
    let a = SnMalloc::new(true);
    let snap = a.snapshot(&vec![Some(raw(2, 0)), None]);
    assert_eq!(snap.is_empty(), snap.len() == 0);
    assert_eq!(snap.samples().len(), snap.len());
}

#[test]
fn snapshot_keeps_what_could_be_read() {
    let mut a = SnMalloc::new(true);
    let slots = vec![None, Some(raw(2, 0)), None, Some(raw(9, 1)), Some(raw(0, 0))];
    let snap = a.snapshot(&slots);
    assert_eq!(snap.sampling_period(), None);
    assert_eq!(snap.len(), 3);
    assert_eq!(snap.samples()[0].stack, vec![0x11, 0x12]);
    assert_eq!(snap.samples()[1].stack, vec![0x11, 0x12, 0x13]);
    assert!(snap.samples()[2].stack.is_empty());
    let s = &snap.samples()[0];
    assert_eq!(
        (s.alloc_ptr, s.requested_size, s.allocated_size, s.weight),
        (0x7000, 60, 64, 512)
    );
    a.set_sampling_rate(4096);
    assert_eq!(a.snapshot(&slots).sampling_period(), Some(4096));
}

#[test]
fn snapshot_kind_is_always_alloc() {
    let a = SnMalloc::new(true);
    for s in a.snapshot(&vec![Some(raw(1, 0)), Some(raw(1, 1))]).samples() {
        assert_eq!(s.kind(), SampleKind::Alloc);
    }
    assert_eq!(SampleKind::from_raw(1, 1), SampleKind::Resize);
    assert_eq!(SampleKind::from_raw(0, 1), SampleKind::Alloc);
    assert_eq!(SampleKind::from_raw(77, 1), SampleKind::Alloc);
}

#[test]
fn feature_off_is_quiescent() {
    let mut a = SnMalloc::new(false);
    assert!(!a.profiling_supported());
    assert_eq!(a.sampling_rate(), 0);
    a.set_sampling_rate(8192);
    assert_eq!(a.sampling_rate(), 0);
    let snap = a.snapshot(&vec![Some(raw(2, 0))]);
    assert!(snap.is_empty());
    assert_eq!(snap.total_allocated_bytes(), 0u128);
    assert_eq!(snap.total_requested_bytes(), 0u128);
}

#[test]
fn lookup_alloc_site_feature_off_returns_none() {
    let a = SnMalloc::new(false);
    for count in [-1, 0, 1, 2, 40] {
        let reply = LookupReply {
            count,
            frames: vec![7, 8],
            base_addr: 0x5000,
            allocated_size: 256,
        };
        assert!(a.lookup_alloc_site(&reply).is_none());
        assert_eq!(SnMalloc::new(true).lookup_alloc_site(&reply).is_some(), count >= 0);
    }
}

#[test]
fn lookup_alloc_site_reads_the_reply() {
    let a = SnMalloc::new(true);
    for (count, want) in [(0isize, 0usize), (2, 2), (3, 3), (40, 3)] {
        let reply = LookupReply {
            count,
            frames: vec![7, 8, 9],
            base_addr: 0x5000,
            allocated_size: 256,
        };
        let site = a.lookup_alloc_site(&reply).unwrap();
        assert_eq!(site.frames, [7usize, 8, 9][..want].to_vec());
        assert_eq!(site.base_addr, 0x5000);
        assert_eq!(site.allocated_size, 256);
        assert_eq!(site.clone().frames, site.frames);
    }
}

#[test]
fn empty_profile_accessors() {
    let p = HeapProfile::default();
    assert_eq!(p.len(), 0);
    assert!(p.is_empty());
    assert_eq!(p.total_allocated_bytes(), 0u128);
    assert_eq!(p.total_requested_bytes(), 0u128);
    assert!(p.samples().is_empty());
}

#[test]
fn totals_are_computed() {
    let s = vec![sample(64, 64, 4096, vec![]), sample(100, 128, 4096, vec![])];
    let p = HeapProfile::from_samples(s);
    assert_eq!(p.total_requested_bytes(), 4096u128 + 4096u128);
    let expected = 4096u128 + 4096u128 * 128u128 / 100u128;
    assert_eq!(p.total_allocated_bytes(), expected);
    let copy = p.clone();
    assert_eq!(copy.len(), 2);
    assert_eq!(copy.total_allocated_bytes(), expected);
}

#[test]
fn zero_requested_size_skipped() {
    let s = vec![sample(0, 0, 12345, vec![])];
    let p = HeapProfile::from_samples(s);
    assert_eq!(p.total_allocated_bytes(), 0u128);
    assert_eq!(p.total_requested_bytes(), 12345u128);
}

#[test]
fn totals_stop_at_the_largest_number() {
    let p = HeapProfile::from_samples(vec![
        sample(1, usize::MAX, usize::MAX, vec![0x1]),
        sample(1, usize::MAX, usize::MAX, vec![0x1]),
    ]);
    let one = usize::MAX as u128 * usize::MAX as u128;
    assert_eq!(p.total_allocated_bytes(), one.saturating_add(one));
    assert_eq!(p.total_requested_bytes(), 2 * usize::MAX as u128);
    let mut out: Vec<u8> = Vec::new();
    p.write_flamegraph_raw(&mut out);
    assert_eq!(
        String::from_utf8(out).unwrap(),
        format!("0x0000000000000001 {}\n", u128::MAX)
    );
}

#[test]
fn stack_key_is_root_first_and_hex() {
    let stack: Vec<usize> = vec![0x0badc0de, 0xdeadbeef, 0xfeedface];
    let key: String = render_stack_key(&stack).iter().collect();
    assert_eq!(
        key,
        "0x00000000feedface;0x00000000deadbeef;0x000000000badc0de"
    );

    assert!(render_stack_key(&vec![]).is_empty());

    let one: Vec<usize> = vec![0x42];
    let key: String = render_stack_key(&one).iter().collect();
    assert_eq!(key, "0x0000000000000042");
}

#[test]
fn flamegraph_empty_profile_is_noop() {
    let p = HeapProfile::default();
    let mut out: Vec<u8> = Vec::new();
    p.write_flamegraph(&mut out);
    assert!(out.is_empty());
}

#[test]
fn flamegraph_collapses_identical_stacks() {
    let stack: Vec<usize> = vec![0xaaaa, 0xbbbb];
    let p = HeapProfile::from_samples(vec![
        sample(64, 64, 4096, stack.clone()),
        sample(64, 64, 4096, stack),
    ]);
    let mut out: Vec<u8> = Vec::new();
    p.write_flamegraph(&mut out);
    let s = String::from_utf8(out).unwrap();
    let lines: Vec<&str> = s.lines().collect();
    assert_eq!(lines.len(), 1);
    assert_eq!(lines[0], "0x000000000000bbbb;0x000000000000aaaa 8192");
}

#[test]
fn flamegraph_weight_sum_matches_total_allocated() {
    let p = HeapProfile::from_samples(vec![
        sample(64, 64, 4096, vec![0x1]),
        sample(100, 128, 4096, vec![0x2]),
    ]);
    let mut out: Vec<u8> = Vec::new();
    p.write_flamegraph(&mut out);
    let s = String::from_utf8(out).unwrap();
    assert_eq!(s.lines().count(), 2);
    assert_eq!(weights(&s), p.total_allocated_bytes());
}

#[test]
fn flamegraph_requested_projection_matches_total_requested() {
    let p = HeapProfile::from_samples(vec![
        sample(64, 128, 4096, vec![0x1]),
        sample(100, 128, 8192, vec![0x2]),
    ]);
    let mut out: Vec<u8> = Vec::new();
    p.write_flamegraph_with(Weight::Requested, &mut out);
    let s = String::from_utf8(out).unwrap();
    let sum = weights(&s);
    assert_eq!(sum, p.total_requested_bytes());
    assert_eq!(sum, 4096u128 + 8192u128);
}

#[test]
fn weight_default_is_allocated() {
    assert_eq!(Weight::default(), Weight::Allocated);
}

#[test]
fn flamegraph_lines_are_sorted_and_appended() {
    let p = HeapProfile::from_samples(vec![
        sample(64, 64, 10, vec![0x2]),
        sample(64, 64, 20, vec![]),
        sample(0, 64, 30, vec![0x1, 0x2]),
        sample(64, 64, 5, vec![0x1]),
    ]);
    let mut out: Vec<u8> = b"before\n".to_vec();
    p.write_flamegraph_raw(&mut out);
    assert_eq!(
        String::from_utf8(out).unwrap(),
        "before\n 20\n0x0000000000000001 5\n0x0000000000000002 10\n\
         0x0000000000000002;0x0000000000000001 0\n"
    );
}

#[test]
fn round_trip_weight_invariance() {
    let mut samples = Vec::new();
    for i in 0..50usize {
        samples.push(sample(64 + i, 128, 1000 + i, vec![i % 5, i % 3]));
    }
    let snap = HeapProfile::from_samples(samples);
    let mut folded: Vec<u8> = Vec::new();
    snap.write_flamegraph(&mut folded);
    let text = std::str::from_utf8(&folded).expect("folded format is ASCII");
    assert_eq!(text.lines().count(), 15);
    assert_eq!(weights(text), snap.total_allocated_bytes());
}

#[test]
fn symbolize_empty_profile_is_empty_map() {
    let p = HeapProfile::default();
    let resolved = p.symbolize(&mut SymbolCache::new());
    assert!(resolved.is_empty());
}

fn symbolize_probe() -> Vec<usize> {
    let mut frames: Vec<usize> = Vec::new();
    backtrace::trace(|frame| {
        frames.push(frame.ip() as usize);
        true
    });
    frames
}

#[test]
fn symbolize_resolves_known_function_name() {
    let frames = std::hint::black_box(symbolize_probe as fn() -> Vec<usize>)();
    assert!(!frames.is_empty(), "backtrace::trace returned no frames");
    let p = HeapProfile::from_samples(vec![sample(1, 1, 1, frames.clone())]);
    let resolved = p.symbolize(&mut SymbolCache::new());
    let any_match = frames.iter().any(|addr| {
        resolved
            .get(addr)
            .and_then(|r| r.name.as_deref())
            .map(|name| name.contains("symbolize_probe"))
            .unwrap_or(false)
    });
    assert!(any_match, "no resolved frame contained the probe identifier");
    assert!(resolved.keys().all(|k| frames.contains(k)));
    assert!(frames.iter().all(|f| resolved.contains_key(f)));
    assert!(resolved.iter().all(|(k, f)| f.address == *k));
}

#[test]
fn symbolize_unresolved_frame_has_none_fields() {
    let addr: usize = 0x1;
    let p = HeapProfile::from_samples(vec![sample(1, 1, 1, vec![addr])]);
    let resolved = p.symbolize(&mut SymbolCache::new());
    let frame = resolved.get(&addr).expect("address should be in the map");
    assert!(frame.name.is_none());
    assert!(frame.file.is_none());
    assert!(frame.line.is_none());
    assert_eq!(frame.address, addr);
}

#[test]
fn flamegraph_symbolicated_falls_back_to_hex() {
    let addr: usize = 0xabcd;
    let p = HeapProfile::from_samples(vec![sample(64, 64, 4096, vec![addr])]);
    let mut out: Vec<u8> = Vec::new();
    p.write_flamegraph_symbolized(&mut SymbolCache::new(), &mut out);
    let text = String::from_utf8(out).unwrap();
    let lines: Vec<&str> = text.lines().collect();
    assert_eq!(lines.len(), 1);
    assert_eq!(lines[0], "0x000000000000abcd 4096");
}

#[test]
fn flamegraph_symbolicated_empty_profile_is_noop() {
    let p = HeapProfile::default();
    let mut out: Vec<u8> = Vec::new();
    p.write_flamegraph_symbolized(&mut SymbolCache::new(), &mut out);
    assert!(out.is_empty());
}

#[test]
fn flamegraph_symbolicated_renders_cleanly() {
    let frames = std::hint::black_box(symbolize_probe as fn() -> Vec<usize>)();
    let p = HeapProfile::from_samples(vec![
        sample(64, 80, 4096, frames.clone()),
        sample(64, 80, 100, frames[1..].to_vec()),
        sample(64, 80, 7, vec![0x1]),
    ]);
    let mut out: Vec<u8> = Vec::new();
    p.write_flamegraph_symbolized(&mut SymbolCache::new(), &mut out);
    let text = String::from_utf8(out).unwrap();
    assert!(text.contains("symbolize_probe"));
    for line in text.lines() {
        let stack = line.rsplitn(2, ' ').nth(1).unwrap();
        for frame in stack.split(';') {
            assert!(!frame.contains(' '), "frame {frame:?} contains a space");
            if frame.starts_with("0x") {
                assert_eq!(frame.len(), 18);
            }
        }
    }
    assert_eq!(weights(&text), p.total_allocated_bytes());
}

#[test]
fn flamegraph_raw_empty_profile_is_noop() {
    let p = HeapProfile::default();
    let mut out: Vec<u8> = Vec::new();
    p.write_flamegraph_raw(&mut out);
    assert!(out.is_empty());
}

#[test]
fn flamegraph_raw_uses_hex_addresses() {
    let addr: usize = 0xabcd;
    let p = HeapProfile::from_samples(vec![sample(64, 64, 4096, vec![addr])]);
    let mut out: Vec<u8> = Vec::new();
    p.write_flamegraph_raw(&mut out);
    let text = String::from_utf8(out).unwrap();
    let lines: Vec<&str> = text.lines().collect();
    assert_eq!(lines.len(), 1);
    assert_eq!(lines[0], "0x000000000000abcd 4096");
}

#[test]
fn names_are_sanitised_and_stacks_with_equal_names_collapse() {
    let mut resolved: HashMap<usize, ResolvedFrame> = HashMap::new();
    resolved.insert(0x1, named(0x1, "a;b c"));
    resolved.insert(0x2, named(0x2, "a;b c"));
    resolved.insert(0x3, named(0x3, "\u{fc}ber"));
    let key: String = render_stack_key_symbolized(&vec![0x1, 0x4, 0x3], &resolved).iter().collect();
    assert_eq!(key, "\u{fc}ber;0x0000000000000004;a_b_c");

    let p = HeapProfile::from_samples(vec![
        sample(64, 64, 10, vec![0x1, 0x3]),
        sample(64, 64, 20, vec![0x2, 0x3]),
        sample(64, 64, 40, vec![0x3]),
    ]);
    let mut out: Vec<u8> = Vec::new();
    p.write_flamegraph_resolved(Weight::Allocated, &resolved, &mut out);
    assert_eq!(
        String::from_utf8(out).unwrap(),
        "\u{fc}ber 40\n\u{fc}ber;a_b_c 30\n"
    );
}

#[test]
fn symbol_cache_returns_equal_frame_on_second_call() {
    let frames = std::hint::black_box(symbolize_probe as fn() -> Vec<usize>)();
    assert!(!frames.is_empty());
    let addr = frames[0];

    let mut cache = SymbolCache::new();
    clear_symbol_cache(&mut cache);

    let first = cache.resolve(addr);
    let second = cache.resolve(addr);

    assert_eq!(first.name, second.name);
    assert_eq!(first.file, second.file);
    assert_eq!(first.line, second.line);
    assert!(first.name.is_some());
}

#[test]
fn symbol_cache_keeps_the_first_answer() {
    let mut cache = SymbolCache::new();
    assert!(cache.get(5).is_none());
    assert_eq!(cache.record(5, named(5, "first")).name.as_deref(), Some("first"));
    assert_eq!(cache.record(5, named(5, "second")).name.as_deref(), Some("first"));
    assert_eq!(cache.resolve(5).name.as_deref(), Some("first"));
    let p = HeapProfile::from_samples(vec![sample(1, 1, 1, vec![5, 0x1])]);
    let once = p.symbolize(&mut cache);
    let twice = p.symbolize(&mut cache);
    assert_eq!(once.len(), 2);
    assert_eq!(twice.len(), 2);
    assert_eq!(once[&5].name.as_deref(), Some("first"));
    assert_eq!(twice[&5].name.as_deref(), Some("first"));
    cache.clear();
    assert!(cache.get(5).is_none());
}

#[test]
fn merged_symbols_take_the_first_of_each() {
    let symbol = |name: Option<&str>, file: Option<&str>, line: Option<u32>| RawSymbol {
        name: name.map(String::from),
        file: file.map(String::from),
        line,
    };
    let frame = merge_symbols(
        9,
        &vec![
            symbol(Some(""), None, None),
            symbol(None, Some(""), None),
            symbol(Some("one"), Some("one.rs"), None),
            symbol(Some("two"), Some("two.rs"), Some(2)),
            symbol(Some("three"), None, Some(3)),
        ],
    );
    assert_eq!(frame.address, 9);
    assert_eq!(frame.name.as_deref(), Some("one"));
    assert_eq!(frame.file.as_deref(), Some(""));
    assert_eq!(frame.line, Some(2));
    let frame = merge_symbols(3, &vec![]);
    assert_eq!(frame.address, 3);
    assert!(frame.name.is_none() && frame.file.is_none() && frame.line.is_none());
    assert!(ResolvedFrame::default().name.is_none());
}

#[test]
fn resolve_one_knows_this_function() {
    let here = resolve_one_knows_this_function as fn() as usize;
    let frame = resolve_one(here + 1);
    assert_eq!(frame.address, here + 1);
    assert!(frame.name.unwrap().contains("resolve_one_knows_this_function"));
}

#[test]
fn names_keep_the_total_of_folded_stacks() {
    let mut resolved: HashMap<usize, ResolvedFrame> = HashMap::new();
    for a in 0..4usize {
        resolved.insert(a, named(a, if a % 2 == 0 { "even" } else { "odd" }));
    }
    let samples: Vec<BtSample> = (0..40usize).map(|i| sample(50 + i, 128, 900 + i, vec![i % 6, i % 4])).collect();
    let p = HeapProfile::from_samples(samples);
    let mut with_names: Vec<u8> = Vec::new();
    p.write_flamegraph_resolved(Weight::Allocated, &resolved, &mut with_names);
    let mut raw: Vec<u8> = Vec::new();
    p.write_flamegraph_raw(&mut raw);
    let with_names = String::from_utf8(with_names).unwrap();
    let raw = String::from_utf8(raw).unwrap();
    assert!(with_names.lines().count() < raw.lines().count());
    assert_eq!(weights(&with_names), weights(&raw));
    assert_eq!(raw.lines().count(), 12);
    let mut again: Vec<u8> = Vec::new();
    p.write_flamegraph_raw(&mut again);
    assert_eq!(raw.into_bytes(), again);
}

#[test]
fn profile_snapshot_profiling_supported_matches_feature() {
    for supported in [true, false] {
        let a = SnMalloc::new(supported);
        assert_eq!(a.profiling_supported(), supported);
        assert_eq!(a.snapshot(&vec![Some(raw(3, 0))]).is_empty(), !supported);
    }
}

#[test]
fn flamegraph_empty_snapshot_writes_nothing() {
    for supported in [true, false] {
        let snap = SnMalloc::new(supported).snapshot(&Vec::new());
        assert!(snap.is_empty());
        let mut buf: Vec<u8> = Vec::new();
        snap.write_flamegraph(&mut buf);
        assert!(buf.is_empty());
    }
}

#[test]
fn flamegraph_correctness_over_live_snapshot() {
    let mut a = SnMalloc::new(true);
    a.set_sampling_rate(4096);
    let slots: Vec<Option<RawSample>> = (0..500usize)
        .map(|i| {
            Some(RawSample {
                alloc_ptr: 0x10_0000 + 64 * i,
                requested_size: 1 + i % 61,
                allocated_size: 64,
                weight: 4096 + 7 * i,
                stack_depth: i % 5,
                stack: vec![0x1000 + i % 3, 0x2000 + i % 4, 0x3000, usize::MAX],
                kind: 0,
            })
        })
        .collect();
    let snap = a.snapshot(&slots);
    assert!(snap.len() >= 100);

    let mut buf: Vec<u8> = Vec::new();
    snap.write_flamegraph_raw(&mut buf);
    let text = std::str::from_utf8(&buf).expect("folded format is ASCII");
    let mut seen_stacks: Vec<&str> = Vec::new();
    let mut sum_weights: u128 = 0;
    for line in text.lines() {
        let mut it = line.rsplitn(2, ' ');
        let weight: u128 = it.next().expect("trailing weight").parse().unwrap();
        let stack = it.next().expect("leading stack");
        if !stack.is_empty() {
            for frame in stack.split(';') {
                assert!(frame.starts_with("0x") && frame.len() == 18);
                assert!(frame[2..].chars().all(|c| c.is_ascii_hexdigit()));
            }
        }
        assert!(!seen_stacks.contains(&stack), "duplicate stack {stack:?}");
        seen_stacks.push(stack);
        sum_weights += weight;
    }
    assert!(!seen_stacks.is_empty());
    assert!(seen_stacks.len() <= snap.len());
    assert_eq!(sum_weights, snap.total_allocated_bytes());

    let mut buf2: Vec<u8> = Vec::new();
    snap.write_flamegraph_with(Weight::Requested, &mut buf2);
    let text2 = std::str::from_utf8(&buf2).expect("folded format is ASCII");
    assert_eq!(weights(text2), snap.total_requested_bytes());
}

#[test]
fn lookup_alloc_site_miss_for_unmapped_addr() {
    let a = SnMalloc::new(true);
    let reply = LookupReply {
        count: -1,
        frames: vec![0; 8],
        base_addr: 0,
        allocated_size: 0,
    };
    assert!(a.lookup_alloc_site(&reply).is_none());
}

#[test]
fn lookup_alloc_site_matches_snapshot() {
    let a = SnMalloc::new(true);
    let snap = a.snapshot(&vec![Some(raw(2, 0)), None, Some(raw(3, 0)), Some(raw(9, 0))]);
    assert_eq!(snap.len(), 3);
    for s in snap.samples() {
        let mut frames = s.stack.clone();
        frames.resize(8, 0);
        let reply = LookupReply {
            count: s.stack.len() as isize,
            frames,
            base_addr: s.alloc_ptr,
            allocated_size: s.allocated_size,
        };
        let hit = a.lookup_alloc_site(&reply).expect("the address is known");
        assert_eq!(hit.base_addr, s.alloc_ptr);
        assert_eq!(hit.allocated_size, s.allocated_size);
        assert_eq!(hit.frames, s.stack);
    }
}

#[test]
fn looked_up_frames_stand_under_their_own_addresses() {
    let mut cache = SymbolCache::new();
    cache.record(5, named(5, "first"));
    let p = HeapProfile::from_samples(vec![sample(1, 1, 1, vec![5, 0x1, 5]), sample(1, 1, 1, vec![0x1, 9])]);
    let mut addresses = p.frame_addresses();
    assert_eq!(addresses.len(), 3);
    addresses.sort();
    assert_eq!(addresses, vec![0x1, 5, 9]);
    let resolved = p.symbolize(&mut cache);
    assert_eq!(resolved.len(), 3);
    for address in addresses {
        assert_eq!(resolved[&address].address, address);
        assert_eq!(cache.get(address).map(|f| f.address), Some(address));
        assert_eq!(cache.resolve(address).address, address);
    }
    assert!(HeapProfile::default().frame_addresses().is_empty());
}

#[test]
fn lookups_inside_live_samples_match_the_snapshot() {
    let live: Vec<(usize, usize, Vec<usize>)> =
        vec![(0x1000, 64, vec![0x11, 0x12]), (0x1040, 16, vec![]), (0x2000, 128, vec![0x21, 0x22, 0x23])];
    let slots: Vec<Option<RawSample>> = live
        .iter()
        .map(|(start, size, stack)| {
            let mut frames = stack.clone();
            frames.resize(4, 0);
            Some(RawSample {
                alloc_ptr: *start,
                requested_size: *size,
                allocated_size: *size,
                weight: 512,
                stack_depth: stack.len(),
                stack: frames,
                kind: 0,
            })
        })
        .collect();
    let ask = |address: usize| {
        let hit = live.iter().find(|(start, size, _)| *start <= address && address - *start < *size);
        let (count, base_addr, allocated_size, stack) = match hit {
            Some((start, size, stack)) => (stack.len() as isize, *start, *size, stack.clone()),
            None => (-1, 0, 0, vec![]),
        };
        let mut frames = stack;
        frames.resize(4, 0xdead);
        LookupReply {
            count,
            frames,
            base_addr,
            allocated_size,
        }
    };
    let a = SnMalloc::new(true);
    let snap = a.snapshot(&slots);
    assert_eq!(snap.len(), 3);
    for s in snap.samples() {
        for address in [s.alloc_ptr, s.alloc_ptr + s.allocated_size / 2, s.alloc_ptr + s.allocated_size - 1] {
            let f = a.lookup_alloc_site(&ask(address)).expect("a live sample holds the address");
            assert_eq!(f.base_addr, s.alloc_ptr);
            assert_eq!(f.allocated_size, s.allocated_size);
            assert_eq!(f.frames, s.stack);
        }
    }
    assert!(a.lookup_alloc_site(&ask(0x1050)).is_none());
    assert!(a.lookup_alloc_site(&ask(0x1)).is_none());
}
