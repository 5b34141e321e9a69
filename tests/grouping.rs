use ducky::{
    collect_groups, files_in_groups, group_by_size, split_by_print, total_reclaimable,
    DuplicateGroup, FileEntry, Fingerprinter,
};

fn entry(path: &str, size: u64) -> FileEntry {
    FileEntry { path: path.as_bytes().to_vec(), size }
}

fn p(s: &str) -> Vec<u8> {
    s.as_bytes().to_vec()
}

/// Feeds `content` to the fingerprinter the way a file reader does: asking
/// how much to read into a buffer of `buf_len` bytes, until it says zero or
/// the content ends.
fn print_of(mut fp: Fingerprinter, content: &[u8], buf_len: usize) -> Vec<u8> {
    let mut pos = 0;
    loop {
        let n = fp.wanted(buf_len);
        if n == 0 {
            break;
        }
        let got = n.min(content.len() - pos);
        if got == 0 {
            break;
        }
        fp.absorb(&content[pos..pos + got]);
        pos += got;
    }
    fp.finish()
}

/// Runs the whole narrowing pipeline over in-memory files.
fn find_groups(files: &[(&str, Vec<u8>)], quick_limit: u64) -> Vec<DuplicateGroup> {
    let entries: Vec<FileEntry> =
        files.iter().map(|(n, c)| entry(n, c.len() as u64)).collect();
    let content = |path: &Vec<u8>| -> Vec<u8> {
        files.iter().find(|(n, _)| n.as_bytes() == path.as_slice()).unwrap().1.clone()
    };
    let mut groups = Vec::new();
    for sb in group_by_size(&entries) {
        if sb.paths.len() < 2 {
            continue;
        }
        let quick: Vec<Option<Vec<u8>>> = sb
            .paths
            .iter()
            .map(|q| Some(print_of(Fingerprinter::quick(quick_limit), &content(q), 4096)))
            .collect();
        for qb in split_by_print(&sb.paths, &quick) {
            let full: Vec<Option<Vec<u8>>> = qb
                .paths
                .iter()
                .map(|q| Some(print_of(Fingerprinter::full(), &content(q), 4096)))
                .collect();
            let buckets = split_by_print(&qb.paths, &full);
            collect_groups(&mut groups, sb.size, buckets);
        }
    }
    groups
}

#[test]
fn groups_by_size() {
    let files = vec![entry("a", 3), entry("b", 3), entry("c", 1)];
    let buckets = group_by_size(&files);
    let len_of = |size: u64| {
        buckets.iter().find(|b| b.size == size).map(|b| b.paths.len()).unwrap_or(0)
    };
    assert_eq!(len_of(3), 2);
    assert_eq!(len_of(1), 1);
    assert_eq!(buckets.len(), 2);
}

#[test]
fn group_by_size_keeps_inventory_order() {
    let files = vec![entry("z", 7), entry("m", 2), entry("a", 7), entry("q", 7)];
    let buckets = group_by_size(&files);
    let seven = buckets.iter().find(|b| b.size == 7).unwrap();
    assert_eq!(seven.paths, vec![p("z"), p("a"), p("q")]);
}

#[test]
fn group_by_size_of_nothing_is_empty() {
    assert!(group_by_size(&Vec::new()).is_empty());
}

#[test]
fn split_by_print_drops_singletons_and_failures() {
    let paths = vec![p("a"), p("b"), p("c"), p("d"), p("e")];
    let prints = vec![Some(vec![1]), Some(vec![2]), Some(vec![1]), None, Some(vec![3])];
    let buckets = split_by_print(&paths, &prints);
    assert_eq!(buckets.len(), 1);
    assert_eq!(buckets[0].print, vec![1]);
    assert_eq!(buckets[0].paths, vec![p("a"), p("c")]);
}

#[test]
fn split_by_print_failed_print_never_joins() {
    let paths = vec![p("a"), p("b")];
    let prints = vec![None, None];
    assert!(split_by_print(&paths, &prints).is_empty());
}

#[test]
fn group_members_sorted_and_canonical_first() {
    let g = DuplicateGroup::new(4, vec![p("/z/b"), p("/a/c"), p("/a/b"), p("/a")]);
    assert_eq!(g.members, vec![p("/a"), p("/a/b"), p("/a/c"), p("/z/b")]);
    assert_eq!(g.size, 4);
}

#[test]
fn group_canonical_orders_by_bytes() {
    // 'B' (0x42) sorts before 'a' (0x61); a prefix sorts first.
    let g = DuplicateGroup::new(1, vec![p("ab"), p("a"), p("B")]);
    assert_eq!(g.members[0], p("B"));
    assert_eq!(g.members, vec![p("B"), p("a"), p("ab")]);
}

#[test]
fn reclaimable_is_size_times_extra_members() {
    let g = DuplicateGroup::new(100, vec![p("a"), p("b"), p("c")]);
    assert_eq!(g.reclaimable(), 200);
    let one = DuplicateGroup::new(100, vec![p("a")]);
    assert_eq!(one.reclaimable(), 0);
    let none = DuplicateGroup::new(100, vec![]);
    assert_eq!(none.reclaimable(), 0);
}

#[test]
fn reclaimable_saturates() {
    let g = DuplicateGroup::new(u64::MAX, vec![p("a"), p("b"), p("c")]);
    assert_eq!(g.reclaimable(), u64::MAX);
    let groups = vec![
        DuplicateGroup::new(u64::MAX, vec![p("a"), p("b")]),
        DuplicateGroup::new(5, vec![p("c"), p("d")]),
    ];
    assert_eq!(total_reclaimable(&groups), u64::MAX);
}

#[test]
fn totals_sum_over_groups() {
    let groups = vec![
        DuplicateGroup::new(10, vec![p("a"), p("b")]),
        DuplicateGroup::new(5, vec![p("c"), p("d"), p("e")]),
    ];
    assert_eq!(total_reclaimable(&groups), 20);
    assert_eq!(files_in_groups(&groups), 5);
    assert_eq!(total_reclaimable(&Vec::new()), 0);
}

#[test]
fn three_identical_files_make_one_group() {
    let content = vec![7u8; 100];
    let files = vec![("C", content.clone()), ("A", content.clone()), ("B", content.clone())];
    let groups = find_groups(&files, 64 * 1024);
    assert_eq!(groups.len(), 1);
    assert_eq!(groups[0].size, 100);
    assert_eq!(groups[0].members, vec![p("A"), p("B"), p("C")]);
    assert_eq!(groups[0].members[0], p("A"));
    assert_eq!(total_reclaimable(&groups), 200);
}

#[test]
fn equal_prefix_different_tail_not_grouped() {
    let x = vec![1u8; 80 * 1024];
    let mut y = x.clone();
    y[70 * 1024] = 2;
    let q = |c: &Vec<u8>| print_of(Fingerprinter::quick(64 * 1024), c, 4096);
    assert_eq!(q(&x), q(&y));
    let groups = find_groups(&[("X", x), ("Y", y)], 64 * 1024);
    assert!(groups.is_empty());
}

#[test]
fn identical_content_grouped_apart_from_others() {
    let same = b"duplicate content".to_vec();
    let other = b"different content".to_vec();
    let files = vec![("p", same.clone()), ("q", other), ("r", same)];
    let groups = find_groups(&files, 1024);
    assert_eq!(groups.len(), 1);
    assert_eq!(groups[0].members, vec![p("p"), p("r")]);
    assert!(groups.iter().all(|g| g.members.len() >= 2));
}

#[test]
fn collect_groups_appends_in_bucket_order() {
    let mut groups = vec![DuplicateGroup::new(1, vec![p("x"), p("y")])];
    let paths = vec![p("d"), p("c"), p("b"), p("a")];
    let prints = vec![Some(vec![9]), Some(vec![8]), Some(vec![9]), Some(vec![8])];
    let buckets = split_by_print(&paths, &prints);
    collect_groups(&mut groups, 3, buckets);
    assert_eq!(groups.len(), 3);
    assert_eq!(groups[0].members, vec![p("x"), p("y")]);
    assert_eq!(groups[1].members, vec![p("b"), p("d")]);
    assert_eq!(groups[2].members, vec![p("a"), p("c")]);
    assert_eq!(groups[2].size, 3);
}
