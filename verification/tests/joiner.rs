use snmalloc_profile::joiner::{
    join_c2c, join_cache_misses, rank_c2c, rank_cache_misses, C2cLine, C2cRow, C2cSource, CacheMissRow, PerfSample,
};
use snmalloc_profile::Frames;

fn line(cacheline_addr: u64, hitm_count: u64) -> C2cLine {
    C2cLine {
        cacheline_addr,
        hitm_count,
        srcs: vec![],
    }
}

fn miss(data_addr: Option<u64>) -> PerfSample {
    PerfSample {
        ip: 0,
        data_addr,
        callstack: vec![],
    }
}

fn site(frames: Vec<usize>, allocated_size: usize) -> Option<Frames> {
    Some(Frames {
        frames,
        base_addr: 0x9000,
        allocated_size,
    })
}

#[test]
fn join_cache_misses_empty_input() {
    let rows = join_cache_misses(&[], 10, |_| None);
    assert!(rows.is_empty());
}

#[test]
fn join_cache_misses_skips_samples_without_data_addr() {
    let samples = vec![PerfSample {
        ip: 0xdeadbeef,
        data_addr: None,
        callstack: vec![0xdeadbeef],
    }];
    let rows = join_cache_misses(&samples, 10, |_| panic!("nothing to look up"));
    assert!(rows.is_empty());
}

#[test]
fn join_c2c_unattributed_is_emitted() {
    let lines = vec![line(0xdead_beef_0000, 42)];
    let rows = join_c2c(&lines, 10, |_| None);
    assert_eq!(rows.len(), 1);
    assert_eq!(rows[0].hitm, 42);
    assert_eq!(rows[0].site_leaf, "<unattributed>");
    assert_eq!(rows[0].cacheline, "0x0000dead_beef_0000".replace('_', ""));
}

#[test]
fn join_c2c_ranks_by_hitm_desc() {
    let lines = vec![line(0x1000, 5), line(0x2000, 50), line(0x3000, 1)];
    let rows = join_c2c(&lines, 10, |_| None);
    assert_eq!(rows.len(), 3);
    assert_eq!(rows[0].hitm, 50);
    assert_eq!(rows[1].hitm, 5);
    assert_eq!(rows[2].hitm, 1);
}

#[test]
fn cache_miss_joiner_against_unattributed_samples_is_empty() {
    let samples = vec![
        PerfSample {
            ip: 0xffffffff80104000,
            data_addr: None,
            callstack: vec![0xffffffff80104000, 0xffffffff80105000],
        },
        PerfSample {
            ip: 0xffffffff80200000,
            data_addr: None,
            callstack: vec![],
        },
        PerfSample {
            ip: 0xffffffff80300000,
            data_addr: Some(0x00007fdeadbeef00),
            callstack: vec![],
        },
    ];
    let rows = join_cache_misses(&samples, 10, |_| None);
    assert!(rows.is_empty());
}

#[test]
fn c2c_joiner_emits_unattributed_for_synthetic_addrs() {
    let lines = vec![
        C2cLine {
            cacheline_addr: 0xffff8881deadbe00,
            hitm_count: 125,
            srcs: vec![
                C2cSource {
                    pid: 12345,
                    ip: 0xffffffff80104000,
                },
                C2cSource { pid: 1, ip: 2 },
            ],
        },
        C2cLine {
            cacheline_addr: 0xffff8881cafef000,
            hitm_count: 80,
            srcs: vec![C2cSource { pid: 1, ip: 2 }],
        },
    ];
    let rows = join_c2c(&lines, 10, |_| None);
    assert_eq!(rows.len(), 2);
    for r in &rows {
        assert_eq!(r.site_leaf, "<unattributed>");
    }
    assert_eq!(rows[0].hitm, 125);
    assert_eq!(rows[1].hitm, 80);
}

#[test]
fn cache_miss_joiner_resolves_in_process_allocation() {
    let synthetic = miss(Some(0x1234));
    let rows = join_cache_misses(std::slice::from_ref(&synthetic), 10, |a| {
        assert_eq!(a, 0x1234);
        site(vec![0x42], 4096)
    });
    assert_eq!(rows.len(), 1, "expected one attributed row");
    assert_eq!(rows[0].miss_count, 1);
    assert_eq!(rows[0].site_leaf, "0x0000000000000042");
    assert_eq!(rows[0].bytes, 4096);
}

#[test]
fn misses_are_counted_per_leaf() {
    let lookup = |a: u64| match a {
        1 | 2 | 3 => site(vec![0xb, 0x1], 64),
        4 => site(vec![0xb, 0x2], 64),
        5 => site(vec![0xb], 128),
        6 => site(vec![0xa], 16),
        7 => site(vec![], 8),
        _ => None,
    };
    let samples: Vec<PerfSample> = [1, 9, 2, 6, 4, 5, 3, 7, 9].iter().map(|&a| miss(Some(a))).collect();
    let rows = join_cache_misses(&samples, 0, lookup);
    let got: Vec<(&str, u64, u64)> = rows.iter().map(|r| (r.site_leaf.as_str(), r.miss_count, r.bytes)).collect();
    assert_eq!(
        got,
        vec![
            ("0x000000000000000b", 5, 128),
            ("0x0000000000000000", 1, 8),
            ("0x000000000000000a", 1, 16),
        ]
    );
    let total: u64 = rows.iter().map(|r| r.miss_count).sum();
    assert_eq!(total, 7);
    assert_eq!(join_cache_misses(&samples, 2, lookup).len(), 2);
    assert_eq!(join_cache_misses(&samples, 3, lookup).len(), 3);
    assert_eq!(join_cache_misses(&samples, 9, lookup).len(), 3);
}

#[test]
fn sizes_of_one_site_share_a_row() {
    let samples = vec![miss(Some(1)), miss(Some(2))];
    for sizes in [[4096, 64], [64, 4096]] {
        let rows = join_cache_misses(&samples, 10, |a| site(vec![0x42, a as usize], sizes[a as usize - 1]));
        assert_eq!(rows.len(), 1);
        assert_eq!(rows[0].site_leaf, "0x0000000000000042");
        assert_eq!(rows[0].miss_count, 2);
        assert_eq!(rows[0].bytes, 4096);
    }
}

#[test]
fn miss_order_makes_no_difference() {
    let lookup = |a: u64| site(vec![(a % 3) as usize], (a * 16) as usize);
    let forward: Vec<PerfSample> = (1..9).map(|a| miss(Some(a))).collect();
    let backward: Vec<PerfSample> = (1..9).rev().map(|a| miss(Some(a))).collect();
    let shown = |samples: &[PerfSample]| -> Vec<(String, u64, u64)> {
        join_cache_misses(samples, 0, lookup).into_iter().map(|r| (r.site_leaf, r.miss_count, r.bytes)).collect()
    };
    assert_eq!(shown(&forward), shown(&backward));
}

#[test]
fn line_order_makes_no_difference() {
    let counts = [(0x40, 3), (0x80, 9), (0xc0, 3), (0x40, 3), (0x100, 0), (0x80, 1)];
    let lookup = |a: u64| if a == 0x80 { None } else { site(vec![a as usize], 64) };
    let shown = |lines: &[C2cLine], n: usize| -> Vec<(String, u64, String)> {
        join_c2c(lines, n, lookup).into_iter().map(|r| (r.cacheline, r.hitm, r.site_leaf)).collect()
    };
    let lines: Vec<C2cLine> = counts.iter().map(|&(a, c)| line(a, c)).collect();
    let whole = shown(&lines, 0);
    assert_eq!(whole.len(), 6);
    for turn in 0..counts.len() {
        let mut turned: Vec<C2cLine> = counts.iter().map(|&(a, c)| line(a, c)).collect();
        turned.rotate_left(turn);
        for n in 1..6 {
            assert_eq!(shown(&turned, n), whole[..n].to_vec());
        }
    }
}

#[test]
fn rankings_of_given_lookups() {
    let rows = rank_cache_misses(&vec![None, site(vec![7], 1), None], 5);
    assert_eq!(rows.len(), 1);
    assert_eq!(rows[0].site_leaf, "0x0000000000000007");

    let lines = vec![line(0x3000, 7), line(0x1000, 7), line(0x2000, 9), line(0x1000, 7)];
    let found = vec![site(vec![1], 1), None, site(vec![], 1), site(vec![2], 1)];
    let rows = rank_c2c(&lines, &found, 0);
    let got: Vec<(&str, u64, &str)> =
        rows.iter().map(|r| (r.cacheline.as_str(), r.hitm, r.site_leaf.as_str())).collect();
    assert_eq!(
        got,
        vec![
            ("0x0000000000002000", 9, "0x0000000000000000"),
            ("0x0000000000001000", 7, "<unattributed>"),
            ("0x0000000000001000", 7, "0x0000000000000002"),
            ("0x0000000000003000", 7, "0x0000000000000001"),
        ]
    );
    assert_eq!(rank_c2c(&lines, &found, 3).len(), 3);
}

#[test]
fn lines_with_equal_counts_are_ordered_by_address() {
    let addrs = [0xffff_ffff_ffff_ffffu64, 0x9, 0xa, 0x10, 0x7fff_0000_0000_0000, 0xf];
    let lines: Vec<C2cLine> = addrs.iter().map(|&a| line(a, 3)).collect();
    let rows = join_c2c(&lines, 0, |_| None);
    let got: Vec<String> = rows.iter().map(|r| r.cacheline.clone()).collect();
    let mut by_number = addrs.to_vec();
    by_number.sort();
    let want: Vec<String> = by_number.iter().map(|a| format!("0x{a:016x}")).collect();
    assert_eq!(got, want);
    let mut by_text = got.clone();
    by_text.sort();
    assert_eq!(got, by_text);
}

#[test]
fn rows_can_be_copied() {
    let rows = rank_cache_misses(&vec![site(vec![7], 1)], 5);
    assert_eq!(rows[0].clone().site_leaf, rows[0].site_leaf);
    assert_eq!(CacheMissRow::default().miss_count, 0);
    let rows = rank_c2c(&[line(1, 2)], &vec![None], 5);
    assert_eq!(rows[0].clone().cacheline, rows[0].cacheline);
    assert_eq!(C2cRow::default().site_leaf, "");
}
