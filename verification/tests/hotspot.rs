use std::collections::HashMap;

use snmalloc_profile::hotspot::{callsite_bucket_frame, is_allocator_frame_name};
use snmalloc_profile::{BtSample, HeapProfile, HotSpotKey, ResolvedFrame, SymbolCache};

fn make_sample(stack: Vec<usize>, weight: usize) -> BtSample {
    BtSample {
        alloc_ptr: 0,
        requested_size: 64,
        allocated_size: 64,
        weight,
        stack,
    }
}

fn named(address: usize, name: &str) -> ResolvedFrame {
    ResolvedFrame {
        address,
        name: Some(name.to_string()),
        file: None,
        line: None,
    }
}

#[test]
fn top_sites_n_zero_returns_empty() {
    let p = HeapProfile::from_samples(vec![make_sample(vec![0xaaaa, 0xbbbb], 4096)]);
    assert!(p.top_sites(0, HotSpotKey::LeafFrame).is_empty());
    assert!(p.top_sites(0, HotSpotKey::FullStack).is_empty());
    assert!(p.top_sites(0, HotSpotKey::CallSite).is_empty());
}

#[test]
fn top_sites_empty_profile() {
    let p = HeapProfile::default();
    assert!(p.top_sites(10, HotSpotKey::LeafFrame).is_empty());
    assert!(p.top_sites(10, HotSpotKey::FullStack).is_empty());
    assert!(p.top_sites(10, HotSpotKey::CallSite).is_empty());
}

#[test]
fn top_sites_leaf_frame_collapses_callers() {
    let p = HeapProfile::from_samples(vec![
        make_sample(vec![0xaaaa, 0xbbbb], 4096),
        make_sample(vec![0xaaaa, 0xcccc], 8192),
        make_sample(vec![0xdddd, 0xbbbb], 1024),
    ]);
    let sites = p.top_sites(10, HotSpotKey::LeafFrame);
    assert_eq!(sites.len(), 2);

    assert_eq!(sites[0].leaf_frame, 0xaaaa);
    assert_eq!(sites[0].inclusive_bytes, 12288u128);
    assert_eq!(sites[0].sample_count, 2);

    assert_eq!(sites[1].leaf_frame, 0xdddd);
    assert_eq!(sites[1].inclusive_bytes, 1024u128);
    assert_eq!(sites[1].sample_count, 1);
    assert_eq!(sites[1].clone().stack, vec![0xdddd]);
}

#[test]
fn top_sites_full_stack_keeps_callers_separate() {
    let p = HeapProfile::from_samples(vec![
        make_sample(vec![0xaaaa, 0xbbbb], 4096),
        make_sample(vec![0xaaaa, 0xcccc], 8192),
    ]);
    let sites = p.top_sites(10, HotSpotKey::FullStack);
    assert_eq!(sites.len(), 2);
    assert_eq!(sites[0].inclusive_bytes, 8192u128);
    assert_eq!(sites[1].inclusive_bytes, 4096u128);
    assert_eq!(sites[0].leaf_frame, 0xaaaa);
    assert_eq!(sites[1].leaf_frame, 0xaaaa);
    assert_eq!(sites[0].stack.len(), 2);
    assert_eq!(sites[1].stack.len(), 2);
}

#[test]
fn top_sites_truncates_to_n() {
    let p = HeapProfile::from_samples(vec![
        make_sample(vec![0x1], 1000),
        make_sample(vec![0x2], 2000),
        make_sample(vec![0x3], 3000),
        make_sample(vec![0x4], 4000),
        make_sample(vec![0x5], 5000),
    ]);
    let sites = p.top_sites(3, HotSpotKey::LeafFrame);
    assert_eq!(sites.len(), 3);
    assert_eq!(sites[0].leaf_frame, 0x5);
    assert_eq!(sites[1].leaf_frame, 0x4);
    assert_eq!(sites[2].leaf_frame, 0x3);
    let sum: u128 = sites.iter().map(|s| s.inclusive_bytes).sum();
    assert_eq!(sum, 12000u128);
}

#[test]
fn top_sites_handles_empty_stacks() {
    let p = HeapProfile::from_samples(vec![
        make_sample(vec![], 1000),
        make_sample(vec![], 2000),
        make_sample(vec![0xfeed], 4000),
    ]);
    let sites = p.top_sites(10, HotSpotKey::LeafFrame);
    assert_eq!(sites.len(), 2);
    assert_eq!(sites[0].leaf_frame, 0xfeed);
    assert_eq!(sites[0].inclusive_bytes, 4000u128);
    assert_eq!(sites[1].leaf_frame, 0);
    assert_eq!(sites[1].inclusive_bytes, 3000u128);
    assert_eq!(sites[1].sample_count, 2);
}

#[test]
fn top_sites_call_site_degrades_to_leaf() {
    let p = HeapProfile::from_samples(vec![
        make_sample(vec![0xaaaa, 0xbbbb], 4096),
        make_sample(vec![0xaaaa, 0xcccc], 8192),
    ]);
    let leaf_sites = p.top_sites(10, HotSpotKey::LeafFrame);
    let call_sites = p.top_sites(10, HotSpotKey::CallSite);
    assert_eq!(leaf_sites.len(), call_sites.len());
    for (a, b) in leaf_sites.iter().zip(call_sites.iter()) {
        assert_eq!(a.leaf_frame, b.leaf_frame);
        assert_eq!(a.inclusive_bytes, b.inclusive_bytes);
        assert_eq!(a.sample_count, b.sample_count);
    }
}

fn callsite_probe_alpha() -> Vec<usize> {
    let mut frames: Vec<usize> = Vec::new();
    backtrace::trace(|frame| {
        frames.push(frame.ip() as usize);
        true
    });
    frames
}

fn callsite_probe_beta() -> Vec<usize> {
    let mut frames: Vec<usize> = Vec::new();
    backtrace::trace(|frame| {
        frames.push(frame.ip() as usize);
        true
    });
    frames
}

#[test]
fn callsite_groups_by_user_caller() {
    let alpha = std::hint::black_box(callsite_probe_alpha as fn() -> Vec<usize>)();
    let beta = std::hint::black_box(callsite_probe_beta as fn() -> Vec<usize>)();
    assert!(!alpha.is_empty(), "alpha probe captured no frames");
    assert!(!beta.is_empty(), "beta probe captured no frames");

    let p = HeapProfile::from_samples(vec![make_sample(alpha, 4096), make_sample(beta, 8192)]);
    let sites = p.top_sites_symbolized(10, HotSpotKey::CallSite, &mut SymbolCache::new());
    assert_eq!(sites.len(), 2, "expected one bucket per probe");
    let total: u128 = sites.iter().map(|s| s.inclusive_bytes).sum();
    assert_eq!(total, 12288u128);
    let count_total: u64 = sites.iter().map(|s| s.sample_count).sum();
    assert_eq!(count_total, 2);
}

#[test]
fn callsite_falls_back_when_no_user_frame() {
    let unresolvable: usize = 0x1;
    let p = HeapProfile::from_samples(vec![BtSample {
        alloc_ptr: 0,
        requested_size: 32,
        allocated_size: 32,
        weight: 1024,
        stack: vec![unresolvable],
    }]);
    let sites = p.top_sites_symbolized(10, HotSpotKey::CallSite, &mut SymbolCache::new());
    assert_eq!(sites.len(), 1);
    assert_eq!(sites[0].inclusive_bytes, 1024u128);
    assert_eq!(sites[0].sample_count, 1);
    assert_eq!(sites[0].leaf_frame, unresolvable);
}

#[test]
fn callsite_fallback_when_unsymbolicated() {
    let p = HeapProfile::from_samples(vec![
        make_sample(vec![0xaaaa, 0xbbbb], 4096),
        make_sample(vec![0xdddd, 0xeeee], 2048),
    ]);
    let sites = p.top_sites(10, HotSpotKey::CallSite);
    assert_eq!(sites.len(), 2);
    let total: u128 = sites.iter().map(|s| s.inclusive_bytes).sum();
    assert_eq!(total, 6144u128);
}

#[test]
fn callsite_skips_the_allocator() {
    let mut resolved: HashMap<usize, ResolvedFrame> = HashMap::new();
    resolved.insert(0x1, named(0x1, "__rg_alloc"));
    resolved.insert(0x2, named(0x2, "snmalloc_rs::SnMalloc::alloc"));
    resolved.insert(0x3, named(0x3, "app::parse"));
    resolved.insert(0x4, named(0x4, "snmalloc::inner"));
    assert_eq!(callsite_bucket_frame(&vec![0x1, 0x2, 0x3, 0x4], &resolved), 0x3);
    assert_eq!(callsite_bucket_frame(&vec![0x1, 0x9, 0x3], &resolved), 0x9);
    assert_eq!(callsite_bucket_frame(&vec![0x4, 0x1, 0x2], &resolved), 0x4);
    assert_eq!(callsite_bucket_frame(&vec![], &resolved), 0);

    let p = HeapProfile::from_samples(vec![
        make_sample(vec![0x1, 0x3], 10),
        make_sample(vec![0x2, 0x3, 0x4], 20),
        make_sample(vec![0x4, 0x2], 5),
    ]);
    let sites = p.top_sites_resolved(10, HotSpotKey::CallSite, &resolved);
    assert_eq!(sites.len(), 2);
    assert_eq!((sites[0].leaf_frame, sites[0].inclusive_bytes, sites[0].sample_count), (0x3, 30, 2));
    assert_eq!(sites[0].stack, vec![0x3]);
    assert_eq!((sites[1].leaf_frame, sites[1].inclusive_bytes, sites[1].sample_count), (0x4, 5, 1));
}

#[test]
fn allocator_names() {
    for name in [
        "snmalloc::alloc", "snmalloc_rs::x", "snmalloc_sys::x", "_ZN8snmalloc5alloc", "sn_rust_alloc",
        "__rust_alloc_zeroed", "__rust_dealloc", "__rust_realloc", "__rg_alloc", "__rg_dealloc",
        "__rg_realloc",
    ] {
        assert!(is_allocator_frame_name(name), "{name}");
    }
    for name in ["", "snmalloc", "my::snmalloc::alloc", "snmalloc_tools::main", "malloc", "_ZN7snmallo"] {
        assert!(!is_allocator_frame_name(name), "{name}");
    }
}

#[test]
fn ties_are_broken_by_count_and_then_by_key() {
    let p = HeapProfile::from_samples(vec![
        make_sample(vec![0x9], 10),
        make_sample(vec![0x7], 5),
        make_sample(vec![0x7], 5),
        make_sample(vec![0x8, 0x2], 10),
        make_sample(vec![0x8, 0x1], 10),
        make_sample(vec![0x8], 10),
        make_sample(vec![], 10),
        make_sample(vec![0x0], 10),
    ]);
    let sites = p.top_sites(100, HotSpotKey::FullStack);
    let keys: Vec<Vec<usize>> = sites.iter().map(|s| s.stack.clone()).collect();
    assert_eq!(
        keys,
        vec![
            vec![0x7],
            vec![],
            vec![0x0],
            vec![0x8],
            vec![0x8, 0x1],
            vec![0x8, 0x2],
            vec![0x9]
        ]
    );
    assert_eq!(sites[0].sample_count, 2);
    assert_eq!(sites[1].leaf_frame, 0);
}

#[test]
fn rows_hold_every_sample_once() {
    let mut samples = Vec::new();
    for i in 0..100usize {
        samples.push(make_sample(vec![i % 7, i % 4], 1 + i));
    }
    let p = HeapProfile::from_samples(samples);
    for key in [HotSpotKey::LeafFrame, HotSpotKey::FullStack, HotSpotKey::CallSite] {
        let sites = p.top_sites(usize::MAX, key);
        let bytes: u128 = sites.iter().map(|s| s.inclusive_bytes).sum();
        let count: u64 = sites.iter().map(|s| s.sample_count).sum();
        assert_eq!(bytes, p.total_allocated_bytes());
        assert_eq!(count, 100);
        assert!(sites.windows(2).all(|w| w[0].inclusive_bytes >= w[1].inclusive_bytes));
    }
}

#[test]
fn leaf_rows_sum_up_stacks() {
    let samples: Vec<BtSample> =
        (0..60usize).map(|i| make_sample(vec![i % 4, 0x10 + i % 3, 0x20 + i % 5][..i % 4].to_vec(), 100 + i)).collect();
    let n = samples.len();
    let p = HeapProfile::from_samples(samples);
    let leaves = p.top_sites(n, HotSpotKey::LeafFrame);
    let stacks = p.top_sites(n, HotSpotKey::FullStack);
    assert!(leaves.len() <= stacks.len());
    for leaf in &leaves {
        let same: Vec<_> = stacks.iter().filter(|s| s.leaf_frame == leaf.leaf_frame).collect();
        assert_eq!(leaf.inclusive_bytes, same.iter().map(|s| s.inclusive_bytes).sum::<u128>());
        assert_eq!(leaf.sample_count, same.iter().map(|s| s.sample_count).sum::<u64>());
    }
}
