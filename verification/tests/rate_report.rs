use snmalloc_profile::rate_report::{
    event_text, reduce_lines, write_csv, write_pretty, LogLine, RateReducer, RateReport, RateRow, RawEvent,
};

fn parse(text: String) -> Option<RawEvent> {
    let value: serde_json::Value = serde_json::from_str(&text).ok()?;
    let object = value.as_object()?;
    let text = |name: &str| object.get(name).and_then(|v| v.as_str()).map(String::from);
    let number = |name: &str| object.get(name).and_then(|v| v.as_u64());
    Some(RawEvent {
        ts_ns: number("ts_ns"),
        kind: text("kind"),
        site: text("site"),
        size: number("size"),
    })
}

fn reduce(log: &str) -> RateReport {
    let lines: Vec<LogLine> = log.lines().map(|l| LogLine::Text(l.to_string())).collect();
    reduce_lines(&lines, parse)
}

fn rate(report: &RateReport, row: usize) -> f64 {
    let span_sec = report.span_ns as f64 / 1_000_000_000.0;
    if span_sec > 0.0 {
        report.rows[row].alloc_count as f64 / span_sec
    } else {
        0.0
    }
}

fn rendered(report: &RateReport) -> Vec<RateRow> {
    (0..report.rows.len())
        .map(|i| {
            let r = &report.rows[i];
            RateRow {
                site: r.site.clone(),
                alloc_count: r.alloc_count,
                dealloc_count: r.dealloc_count,
                peak_live_bytes: r.peak_live_bytes,
                alloc_rate_per_sec: format!("{:.6}", rate(report, i)),
            }
        })
        .collect()
}

fn row(site: &str, alloc: u64, dealloc: u64, peak: u64, rate: &str) -> RateRow {
    RateRow {
        site: site.to_string(),
        alloc_count: alloc,
        dealloc_count: dealloc,
        peak_live_bytes: peak,
        alloc_rate_per_sec: rate.to_string(),
    }
}

#[test]
fn empty_input_yields_no_rows() {
    let report = reduce("");
    assert!(report.rows.is_empty());
    assert_eq!(report.span_ns, 0);
}

#[test]
fn skips_malformed_and_blank_lines() {
    let log = "\n\
               not-json\n\
               {\"kind\":\"alloc\",\"site\":\"0xA\",\"size\":10}\n\
               {garbled}\n\
               \n";
    let rows = reduce(log).rows;
    assert_eq!(rows.len(), 1);
    assert_eq!(rows[0].site, "0xA");
    assert_eq!(rows[0].alloc_count, 1);
}

#[test]
fn peak_live_tracks_running_max_not_final() {
    let log = "{\"kind\":\"alloc\",\"site\":\"0xA\",\"size\":100,\"ts_ns\":0}\n\
               {\"kind\":\"alloc\",\"site\":\"0xA\",\"size\":50,\"ts_ns\":1}\n\
               {\"kind\":\"dealloc\",\"site\":\"0xA\",\"size\":120,\"ts_ns\":2}\n";
    let rows = reduce(log).rows;
    assert_eq!(rows.len(), 1);
    assert_eq!(rows[0].peak_live_bytes, 150);
    assert_eq!(rows[0].alloc_count, 2);
    assert_eq!(rows[0].dealloc_count, 1);
}

#[test]
fn rate_uses_timestamp_span() {
    let log = "{\"kind\":\"alloc\",\"site\":\"0xA\",\"size\":1,\"ts_ns\":0}\n\
               {\"kind\":\"alloc\",\"site\":\"0xA\",\"size\":1,\"ts_ns\":1000000000}\n";
    let report = reduce(log);
    assert_eq!(report.rows.len(), 1);
    assert_eq!(report.span_ns, 1_000_000_000);
    assert!((rate(&report, 0) - 2.0).abs() < 1e-9);
}

#[test]
fn rate_is_zero_when_no_timestamps() {
    let log = "{\"kind\":\"alloc\",\"site\":\"0xA\",\"size\":1}\n\
               {\"kind\":\"alloc\",\"site\":\"0xA\",\"size\":1}\n";
    let report = reduce(log);
    assert_eq!(report.rows.len(), 1);
    assert_eq!(report.span_ns, 0);
    assert_eq!(rate(&report, 0), 0.0);
}

#[test]
fn sort_is_alloc_count_desc_then_site_asc() {
    let log = "{\"kind\":\"alloc\",\"site\":\"0xB\",\"size\":1}\n\
               {\"kind\":\"alloc\",\"site\":\"0xA\",\"size\":1}\n\
               {\"kind\":\"alloc\",\"site\":\"0xA\",\"size\":1}\n";
    let rows = reduce(log).rows;
    assert_eq!(rows[0].site, "0xA"); // 2 allocs wins
    assert_eq!(rows[1].site, "0xB");
}

#[test]
fn equal_counts_are_sorted_by_site() {
    let log = "{\"kind\":\"alloc\",\"site\":\"b\"}\n\
               {\"kind\":\"alloc\",\"site\":\"\u{e9}\"}\n\
               {\"kind\":\"alloc\",\"site\":\"ab\"}\n\
               {\"kind\":\"alloc\",\"site\":\"a\"}\n";
    let sites: Vec<String> = reduce(log).rows.iter().map(|r| r.site.clone()).collect();
    assert_eq!(sites, vec!["a", "ab", "b", "\u{e9}"]);
}

#[test]
fn unknown_kind_is_ignored_for_counts() {
    let log = "{\"kind\":\"alloc\",\"site\":\"0xA\",\"size\":10}\n\
               {\"kind\":\"resize\",\"site\":\"0xA\",\"size\":99}\n";
    let rows = reduce(log).rows;
    assert_eq!(rows[0].alloc_count, 1);
    assert_eq!(rows[0].peak_live_bytes, 10);
}

#[test]
fn dealloc_underflow_saturates_at_zero() {
    let log = "{\"kind\":\"dealloc\",\"site\":\"0xA\",\"size\":999}\n";
    let rows = reduce(log).rows;
    assert_eq!(rows[0].peak_live_bytes, 0);
    assert_eq!(rows[0].dealloc_count, 1);
}

#[test]
fn write_csv_has_header_and_one_row_per_site() {
    let log = "{\"kind\":\"alloc\",\"site\":\"0xA\",\"size\":1,\"ts_ns\":0}\n";
    let report = reduce(log);
    let mut out: Vec<u8> = Vec::new();
    write_csv(&rendered(&report), &mut out);
    let s = String::from_utf8(out).unwrap();
    assert!(s.starts_with("site,alloc_count,"));
    assert!(s.contains("0xA,1,0,1,"));
}

#[test]
fn write_pretty_emits_aligned_columns() {
    let log = "{\"kind\":\"alloc\",\"site\":\"0xA\",\"size\":1}\n";
    let report = reduce(log);
    let mut out: Vec<u8> = Vec::new();
    write_pretty(&rendered(&report), &mut out);
    let s = String::from_utf8(out).unwrap();
    assert!(s.lines().next().unwrap().starts_with("site"));
    assert!(s.lines().nth(1).unwrap().starts_with("0xA"));
}

#[test]
fn csv_text_is_exact() {
    let mut out: Vec<u8> = b"#\n".to_vec();
    write_csv(&vec![row("0xA", 4, 2, 3072, "4.000000"), row("b,c", 0, u64::MAX, 10, "0.000000")], &mut out);
    assert_eq!(
        String::from_utf8(out).unwrap(),
        "#\nsite,alloc_count,dealloc_count,peak_live_bytes,alloc_rate_per_sec\n\
         0xA,4,2,3072,4.000000\n\
         b,c,0,18446744073709551615,10,0.000000\n"
    );
}

#[test]
fn pretty_text_pads_as_the_standard_formatter_does() {
    let rows = vec![
        row("0x0000aaaa00000001", 4, 2, 3072, "4.000000"),
        row("\u{e9}t\u{e9}", 0, 0, 0, "0.000000"),
        row("a site with a name that is too wide", 123456789012345, 12345678901234567, u64::MAX, "123456789012345678901.500000"),
    ];
    let mut out: Vec<u8> = Vec::new();
    write_pretty(&rows, &mut out);
    let mut want = format!(
        "{:<20} {:>11} {:>13} {:>16} {:>20}\n",
        "site", "alloc_count", "dealloc_count", "peak_live_bytes", "alloc_rate_per_sec"
    );
    for r in &rows {
        want.push_str(&format!(
            "{:<20} {:>11} {:>13} {:>16} {:>20}\n",
            r.site, r.alloc_count, r.dealloc_count, r.peak_live_bytes, r.alloc_rate_per_sec
        ));
    }
    assert_eq!(String::from_utf8(out).unwrap(), want);
}

#[test]
fn events_without_a_site_or_a_kind_do_not_count() {
    let log = "{\"kind\":\"alloc\",\"size\":1,\"ts_ns\":5}\n\
               {\"kind\":\"alloc\",\"site\":\"\",\"size\":1,\"ts_ns\":7}\n\
               {\"site\":\"0xA\",\"size\":1,\"ts_ns\":100}\n\
               {\"kind\":\"other\",\"site\":\"0xB\",\"ts_ns\":40}\n\
               {\"kind\":\"alloc\",\"site\":\"0xC\",\"ts_ns\":30}\n";
    let report = reduce(log);
    let sites: Vec<&str> = report.rows.iter().map(|r| r.site.as_str()).collect();
    assert_eq!(sites, vec!["0xC", "0xB"]);
    assert_eq!(report.rows[1].alloc_count, 0);
    assert_eq!(report.span_ns, 10);
}

#[test]
fn a_failed_read_ends_the_log() {
    let event = |site: &str| LogLine::Text(format!("{{\"kind\":\"alloc\",\"site\":\"{site}\"}}"));
    let report = reduce_lines(&vec![event("a"), LogLine::Failed, event("b")], parse);
    assert_eq!(report.rows.len(), 1);
    assert_eq!(report.rows[0].site, "a");
    let mut r = RateReducer::new();
    assert!(r.absorb_line(&event("a"), &parse));
    assert!(r.absorb_line(&LogLine::Malformed, &parse));
    assert!(!r.absorb_line(&LogLine::Failed, &parse));
}

#[test]
fn malformed_lines_are_skipped() {
    let event = b"{\"kind\":\"alloc\",\"site\":\"0xA\",\"size\":1}\n";
    let mut log: Vec<u8> = event.to_vec();
    log.extend_from_slice(&[0xff, 0x0a]);
    log.extend_from_slice(event);
    let lines: Vec<LogLine> = log.split(|b| *b == b'\n').map(|l| LogLine::from_bytes(l.to_vec())).collect();
    assert!(matches!(lines[1], LogLine::Malformed));
    let report = reduce_lines(&lines, parse);
    assert_eq!(report.rows.len(), 1);
    assert_eq!(report.rows[0].site, "0xA");
    assert_eq!(report.rows[0].alloc_count, 2);
    assert_eq!(report.rows[0].peak_live_bytes, 2);
}

#[test]
fn lines_are_made_of_bytes() {
    match LogLine::from_bytes("gr\u{fc}n".as_bytes().to_vec()) {
        LogLine::Text(s) => assert_eq!(s, "gr\u{fc}n"),
        other => panic!("unexpected line {other:?}"),
    }
    assert!(matches!(LogLine::from_bytes(vec![0xc3]), LogLine::Malformed));
    assert!(matches!(LogLine::from_bytes(Vec::new()), LogLine::Text(s) if s.is_empty()));
}

#[test]
fn idle_lines_change_nothing() {
    let event = |site: &str, ts: u64| {
        LogLine::Text(format!("{{\"kind\":\"alloc\",\"site\":\"{site}\",\"size\":3,\"ts_ns\":{ts}}}"))
    };
    let idle = |i: usize| match i % 5 {
        0 => LogLine::Malformed,
        1 => LogLine::Text("  \t".to_string()),
        2 => LogLine::Text("{truncated".to_string()),
        3 => LogLine::Text("{\"site\":\"a\",\"ts_ns\":0}".to_string()),
        _ => LogLine::Text("{\"kind\":\"alloc\",\"site\":\"\",\"ts_ns\":99999}".to_string()),
    };
    let shown = |r: RateReport| -> (Vec<(String, u64, u64, u64)>, u64) {
        let rows = r.rows.into_iter().map(|t| (t.site, t.alloc_count, t.dealloc_count, t.peak_live_bytes));
        (rows.collect(), r.span_ns)
    };
    let plain = reduce_lines(&vec![event("a", 10), event("b", 30), event("a", 20)], parse);
    let mut padded = vec![idle(0), idle(3), event("a", 10), idle(1), idle(4)];
    padded.extend([event("b", 30), idle(2), idle(0), event("a", 20), idle(4), idle(3)]);
    let of_padded = reduce_lines(&padded, parse);
    padded.extend([LogLine::Failed, event("c", 500)]);
    let of_failed = reduce_lines(&padded, parse);
    let want = shown(plain);
    assert_eq!(want.1, 20);
    assert_eq!(shown(of_padded), want);
    assert_eq!(shown(of_failed), want);
}

#[test]
fn live_bytes_stop_at_the_largest_number() {
    let mut r = RateReducer::new();
    for (kind, size) in [("alloc", u64::MAX), ("alloc", 5), ("dealloc", 10), ("alloc", 3)] {
        r.absorb(&RawEvent {
            ts_ns: None,
            kind: Some(kind.to_string()),
            site: Some("s".to_string()),
            size: Some(size),
        });
    }
    let report = r.finish();
    assert_eq!(report.rows[0].peak_live_bytes, u64::MAX);
    assert_eq!(report.rows[0].alloc_count, 3);
    assert_eq!(report.rows[0].dealloc_count, 1);
}

#[test]
fn event_text_trims_and_drops_blank_lines() {
    assert_eq!(event_text("  \t \u{2028}"), None);
    assert_eq!(event_text(""), None);
    assert_eq!(event_text("\u{a0} {x} \r").as_deref(), Some("{x}"));
}

#[test]
fn allocations_of_all_rows_add_up() {
    let mut r = RateReducer::new();
    let mut allocs = 0;
    for i in 0..100u64 {
        let kind = if i % 3 == 0 { "dealloc" } else { "alloc" };
        allocs += u64::from(kind == "alloc");
        r.absorb(&RawEvent {
            ts_ns: Some(1000 - i),
            kind: Some(kind.to_string()),
            site: Some(format!("site{}", i % 7)),
            size: Some(i),
        });
    }
    let report = r.finish();
    assert_eq!(report.rows.len(), 7);
    assert_eq!(report.span_ns, 99);
    assert_eq!(report.rows.iter().map(|r| r.alloc_count).sum::<u64>(), allocs);
    assert!(report.rows.windows(2).all(|w| w[0].alloc_count >= w[1].alloc_count));
    let plain = RateRow::default();
    assert_eq!(plain.clone().site, "");
}

#[test]
fn lines_are_read_one_at_a_time() {
    let mut r = RateReducer::new();
    for line in [
        "   ",
        "not json",
        "  {\"kind\":\"alloc\",\"site\":\"a\",\"size\":5,\"ts_ns\":30}\t",
        "{\"kind\":\"dealloc\",\"site\":\"a\",\"size\":5,\"ts_ns\":10}",
        "{\"kind\":\"alloc\",\"site\":\"\",\"ts_ns\":1}",
        "{\"site\":\"a\",\"ts_ns\":999}",
    ] {
        assert!(r.absorb_line(&LogLine::Text(line.to_string()), &parse));
    }
    let report = r.finish();
    assert_eq!(report.rows.len(), 1);
    assert_eq!(report.rows[0].alloc_count, 1);
    assert_eq!(report.rows[0].dealloc_count, 1);
    assert_eq!(report.rows[0].peak_live_bytes, 5);
    assert_eq!(report.span_ns, 20);
}

#[test]
fn a_default_row_has_rate_zero() {
    let rows = vec![RateRow::default()];
    assert_eq!(rows[0].alloc_rate_per_sec, format!("{:.6}", 0.0f64));
    let mut csv: Vec<u8> = Vec::new();
    write_csv(&rows, &mut csv);
    let csv = String::from_utf8(csv).unwrap();
    assert_eq!(csv.lines().nth(1), Some(",0,0,0,0.000000"));
    let mut pretty: Vec<u8> = Vec::new();
    write_pretty(&rows, &mut pretty);
    let want = format!("{:<20} {:>11} {:>13} {:>16} {:>20.6}", "", 0, 0, 0, 0.0f64);
    assert_eq!(String::from_utf8(pretty).unwrap().lines().nth(1), Some(want.as_str()));
}
