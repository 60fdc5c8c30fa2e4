use std::io::Write;
use zip_partitioner::classify::{classify, classify_lowered, has_suffix, EntryKind};
use zip_partitioner::extract::{extract, ExtractError};
use zip_partitioner::naming::{entry_name, part_file_name};
use zip_partitioner::pack::{build_archive, entry_names, kept_entries};
use zip_partitioner::partition::{partition, total_groups};
use zip_partitioner::payload::Payload;
use zip_partitioner::sources::{extract_source, gather, SourceFailure};
use zip_partitioner::zipio::ZipFailure;

fn payload(name: &str, data: &[u8]) -> Payload {
    Payload { name: name.to_string(), data: data.to_vec() }
}

fn archive(entries: &[(&str, Vec<u8>)]) -> Vec<u8> {
    let group: Vec<Payload> = entries.iter().map(|(n, d)| payload(n, d)).collect();
    build_archive(&group).expect("archive builds")
}

fn xml_archive(prefix: &str, count: usize) -> Vec<u8> {
    let entries: Vec<(String, Vec<u8>)> =
        (0..count).map(|i| (format!("{}{}.xml", prefix, i), format!("<{}{}/>", prefix, i).into_bytes())).collect();
    let refs: Vec<(&str, Vec<u8>)> = entries.iter().map(|(n, d)| (n.as_str(), d.clone())).collect();
    archive(&refs)
}

fn names(v: &[Payload]) -> Vec<String> {
    v.iter().map(|p| p.name.clone()).collect()
}

#[test]
fn classify_by_suffix_ignoring_case() {
    assert_eq!(classify("notes/A.XML"), EntryKind::Payload);
    assert_eq!(classify("inner.Zip"), EntryKind::Container);
    assert_eq!(classify("folder/"), EntryKind::Ignore);
    assert_eq!(classify("readme.txt"), EntryKind::Ignore);
    assert_eq!(classify("xml"), EntryKind::Ignore);
    assert_eq!(classify(""), EntryKind::Ignore);
}

#[test]
fn classify_lowered_expects_lower_case() {
    assert_eq!(classify_lowered("a.zip"), EntryKind::Container);
    assert_eq!(classify_lowered("a.ZIP"), EntryKind::Ignore);
    assert_eq!(classify("a.ZIP"), EntryKind::Container);
}

#[test]
fn suffix_check() {
    assert!(has_suffix("report.xml", ".xml"));
    assert!(!has_suffix("ml", ".xml"));
    assert!(has_suffix("ação.xml", ".xml"));
    assert!(has_suffix("abc", ""));
}

#[test]
fn base_names_drop_directories() {
    assert_eq!(entry_name("a/b/c.xml"), "c.xml");
    assert_eq!(entry_name("a\\b.xml"), "b.xml");
    assert_eq!(entry_name("plain.xml"), "plain.xml");
    assert_eq!(entry_name("dir/"), "");
}

#[test]
fn output_names_count_from_one() {
    assert_eq!(part_file_name(1), "partition_1.zip");
    assert_eq!(part_file_name(10), "partition_10.zip");
    assert_eq!(part_file_name(123), "partition_123.zip");
}

#[test]
fn group_counts_round_up() {
    assert_eq!(total_groups(12, 4), 3);
    assert_eq!(total_groups(13, 4), 4);
    assert_eq!(total_groups(0, 4), 0);
    assert_eq!(total_groups(3, 5), 1);
    assert_eq!(total_groups(usize::MAX, 1), usize::MAX);
    assert_eq!(total_groups(usize::MAX, usize::MAX), 1);
}

#[test]
fn partition_cuts_in_order() {
    let groups = partition((1..=10).collect::<Vec<u32>>(), 4);
    assert_eq!(groups, vec![vec![1, 2, 3, 4], vec![5, 6, 7, 8], vec![9, 10]]);
    let groups = partition(Vec::<u32>::new(), 3);
    assert!(groups.is_empty());
    let groups = partition(vec![7u32, 8, 9], 1);
    assert_eq!(groups, vec![vec![7], vec![8], vec![9]]);
    let groups = partition(vec![1u32, 2], 5);
    assert_eq!(groups, vec![vec![1, 2]]);
}

#[test]
fn capacity_bound_holds() {
    for n in 0..30u32 {
        for cap in 1..7usize {
            let groups = partition((0..n).collect::<Vec<u32>>(), cap);
            assert_eq!(groups.len(), total_groups(n as usize, cap));
            for (i, g) in groups.iter().enumerate() {
                if i + 1 < groups.len() {
                    assert_eq!(g.len(), cap);
                } else {
                    assert!(1 <= g.len() && g.len() <= cap);
                }
            }
            let joined: Vec<u32> = groups.concat();
            assert_eq!(joined, (0..n).collect::<Vec<u32>>());
        }
    }
}

#[test]
fn later_duplicate_names_win() {
    let v = vec!["a".to_string(), "b".to_string(), "a".to_string()];
    assert_eq!(kept_entries(&v), vec![1, 2]);
    assert_eq!(kept_entries(&Vec::new()), Vec::<usize>::new());
    let group = vec![payload("x/one.xml", b"1"), payload("y/one.xml", b"2")];
    assert_eq!(entry_names(&group), vec!["one.xml".to_string(), "one.xml".to_string()]);
    let bytes = build_archive(&group).unwrap();
    let out = extract(bytes, 4).unwrap();
    assert_eq!(names(&out.payloads), vec!["one.xml"]);
    assert_eq!(out.payloads[0].data, b"2".to_vec());
}

#[test]
fn extract_keeps_entry_order_and_skips_others() {
    let bytes = archive(&[
        ("b.xml", b"B".to_vec()),
        ("notes.txt", b"n".to_vec()),
        ("a.XML", b"A".to_vec()),
    ]);
    let out = extract(bytes, 4).unwrap();
    assert_eq!(names(&out.payloads), vec!["b.xml", "a.XML"]);
    assert_eq!(out.payloads[1].data, b"A".to_vec());
    assert!(out.warnings.is_empty());
}

#[test]
fn nested_payload_extracted_once() {
    let innermost = archive(&[("deep/x.xml", b"<x/>".to_vec())]);
    let middle = archive(&[("inner.zip", innermost)]);
    let outer = archive(&[("before.xml", b"1".to_vec()), ("middle.ZIP", middle), ("after.xml", b"2".to_vec())]);
    let out = extract(outer.clone(), 8).unwrap();
    assert_eq!(names(&out.payloads), vec!["before.xml", "x.xml", "after.xml"]);
    assert_eq!(out.payloads[1].data, b"<x/>".to_vec());
    assert!(out.warnings.is_empty());
    let shallow = extract(outer, 1).unwrap();
    assert_eq!(names(&shallow.payloads), vec!["before.xml", "after.xml"]);
    assert_eq!(shallow.warnings.len(), 1);
    assert_eq!(shallow.warnings[0].entry, "inner.zip");
    assert_eq!(shallow.warnings[0].error, ExtractError::TooDeep);
}

#[test]
fn corrupt_nested_archive_is_skipped() {
    let outer = archive(&[("a.xml", b"1".to_vec()), ("bad.zip", b"not an archive".to_vec()), ("b.xml", b"2".to_vec())]);
    let out = extract(outer, 4).unwrap();
    assert_eq!(names(&out.payloads), vec!["a.xml", "b.xml"]);
    assert_eq!(out.warnings.len(), 1);
    assert_eq!(out.warnings[0].entry, "bad.zip");
    assert!(matches!(out.warnings[0].error, ExtractError::Open(_)));
}

#[test]
fn corrupt_top_level_archive_fails() {
    let r = extract(b"garbage".to_vec(), 4);
    assert!(matches!(r, Err(ExtractError::Open(ZipFailure::Invalid))));
    assert!(matches!(extract(Vec::new(), 4), Err(ExtractError::Open(_))));
}

#[test]
fn directory_entries_are_skipped() {
    let mut w = zip::ZipWriter::new(std::io::Cursor::new(Vec::new()));
    let opts = zip::write::SimpleFileOptions::default();
    w.add_directory("folder.xml/", opts).unwrap();
    w.start_file("folder.xml/inside.xml", opts).unwrap();
    w.write_all(b"in").unwrap();
    let bytes = w.finish().unwrap().into_inner();
    let out = extract(bytes, 4).unwrap();
    assert_eq!(names(&out.payloads), vec!["folder.xml/inside.xml"]);
}

#[test]
fn failure_of_one_source_leaves_others() {
    let first = xml_archive("a", 2);
    let third = xml_archive("c", 3);
    let reports = vec![
        extract_source(Some(first), 4),
        extract_source(Some(b"corrupted".to_vec()), 4),
        extract_source(Some(third), 4),
    ];
    assert_eq!(reports[0].payloads.len(), 2);
    assert!(reports[0].failure.is_none());
    assert!(reports[1].payloads.is_empty());
    assert!(matches!(reports[1].failure, Some(SourceFailure::Extract(ExtractError::Open(_)))));
    assert_eq!(reports[2].payloads.len(), 3);
    let all = gather(reports);
    assert_eq!(names(&all), vec!["a0.xml", "a1.xml", "c0.xml", "c1.xml", "c2.xml"]);
}

#[test]
fn unreadable_source_contributes_nothing() {
    let r = extract_source(None, 4);
    assert!(r.payloads.is_empty());
    assert_eq!(r.failure, Some(SourceFailure::Unreadable));
}

#[test]
fn twelve_payloads_from_three_sources_make_three_groups() {
    let reports = vec![
        extract_source(Some(xml_archive("a", 7)), 4),
        extract_source(None, 4),
        extract_source(Some(xml_archive("c", 5)), 4),
    ];
    let all = gather(reports);
    assert_eq!(all.len(), 12);
    assert_eq!(total_groups(all.len(), 4), 3);
    let groups = partition(all, 4);
    let sizes: Vec<usize> = groups.iter().map(|g| g.len()).collect();
    assert_eq!(sizes, vec![4, 4, 4]);
    assert_eq!(names(&groups[1]), vec!["a4.xml", "a5.xml", "a6.xml", "c0.xml"]);
    assert_eq!(names(&groups[2]), vec!["c1.xml", "c2.xml", "c3.xml", "c4.xml"]);
}

#[test]
fn rewritten_payload_reads_back_identical() {
    let data: Vec<u8> = (0..5000u32).map(|i| (i * 7 % 251) as u8).collect();
    let group = vec![payload("deep/dir/item.xml", &data), payload("other.xml", b"")];
    let bytes = build_archive(&group).unwrap();
    let out = extract(bytes, 4).unwrap();
    assert_eq!(names(&out.payloads), vec!["item.xml", "other.xml"]);
    assert_eq!(out.payloads[0].data, data);
    assert!(out.payloads[1].data.is_empty());
}

#[test]
fn depth_zero_skips_every_nested_archive() {
    let inner = archive(&[("x.xml", b"x".to_vec())]);
    let outer = archive(&[("inner.zip", inner), ("top.xml", b"t".to_vec())]);
    let out = extract(outer, 0).unwrap();
    assert_eq!(names(&out.payloads), vec!["top.xml"]);
    assert_eq!(out.warnings.len(), 1);
    assert_eq!(out.warnings[0].error, ExtractError::TooDeep);
}

#[test]
fn nested_warnings_reach_the_top() {
    let middle = archive(&[("broken.zip", b"??".to_vec()), ("m.xml", b"m".to_vec())]);
    let outer = archive(&[("middle.zip", middle)]);
    let out = extract(outer, 4).unwrap();
    assert_eq!(names(&out.payloads), vec!["m.xml"]);
    assert_eq!(out.warnings.len(), 1);
    assert_eq!(out.warnings[0].entry, "broken.zip");
}

#[test]
fn empty_group_builds_empty_archive() {
    let bytes = build_archive(&Vec::new()).unwrap();
    let out = extract(bytes, 4).unwrap();
    assert!(out.payloads.is_empty());
    assert!(out.warnings.is_empty());
}

#[test]
fn overlong_entry_name_is_a_write_error() {
    let long = format!("{}.xml", "n".repeat(70000));
    let group = vec![payload(&long, b"x")];
    let r = build_archive(&group);
    assert!(matches!(r, Err(zip_partitioner::pack::WriteError::Start(ZipFailure::Invalid))));
}
