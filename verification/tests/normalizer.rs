use pv_db::normalize;

/// Sorts the records and drops all but the first of each run with one key,
/// with the standard library's own line splitting, sort and dedup.
fn by_sort_and_dedup(text: &str) -> String {
    let mut lines: Vec<&str> = text
        .lines()
        .filter(|line| line.contains('='))
        .filter(|line| !line.starts_with('#'))
        .collect();
    lines.sort();
    lines.dedup_by(|a, b| a.split('=').next() == b.split('=').next());
    lines.join("\n")
}

#[test]
fn duplicate_key_keeps_smaller_value() {
    assert_eq!(normalize("foo.bar=2\nfoo.bar=1"), "foo.bar=1");
}

#[test]
fn duplicate_key_keeps_smaller_value_in_either_order() {
    assert_eq!(normalize("foo.bar=1\nfoo.bar=2"), "foo.bar=1");
    assert_eq!(normalize("foo.bar=2\nfoo.bar=1\nfoo.bar=3"), "foo.bar=1");
}

#[test]
fn duplicate_values_compare_as_text_not_as_numbers() {
    assert_eq!(normalize("k=9\nk=10"), "k=10");
    assert_eq!(normalize("k=b\nk=B"), "k=B");
}

#[test]
fn identical_lines_collapse_to_one() {
    assert_eq!(normalize("a=1\na=1\na=1"), "a=1");
}

#[test]
fn comment_lines_are_dropped() {
    assert_eq!(normalize("#a=1\nb=2\n# a comment\n#=\n"), "b=2");
}

#[test]
fn lines_without_separator_are_dropped() {
    assert_eq!(normalize("just text\nb=2\n\n   \nanother"), "b=2");
}

#[test]
fn comment_marker_counts_only_at_line_start() {
    assert_eq!(normalize(" #a=1\na#b=2"), " #a=1\na#b=2");
}

#[test]
fn records_come_out_in_ascending_order() {
    assert_eq!(normalize("b=1\nc=0\na=2"), "a=2\nb=1\nc=0");
}

#[test]
fn order_is_by_whole_line_not_by_key() {
    // '0' sorts before '=', so the longer key comes first.
    assert_eq!(normalize("pv_1=x\npv_10=y"), "pv_10=y\npv_1=x");
}

#[test]
fn keys_are_cut_at_the_first_separator() {
    assert_eq!(normalize("a=b=c\na=b"), "a=b");
    assert_eq!(normalize("a=x=1\na=x=0"), "a=x=0");
}

#[test]
fn empty_key_is_a_key() {
    assert_eq!(normalize("=2\n=1\na=0"), "=1\na=0");
}

#[test]
fn carriage_return_before_line_feed_is_dropped() {
    assert_eq!(normalize("b=2\r\na=1\r\n"), "a=1\nb=2");
}

#[test]
fn carriage_return_at_end_of_text_is_kept() {
    assert_eq!(normalize("a=1\r"), "a=1\r");
}

#[test]
fn only_one_carriage_return_is_dropped() {
    assert_eq!(normalize("a=1\r\r\n"), "a=1\r");
}

#[test]
fn empty_text_normalizes_to_empty_text() {
    assert_eq!(normalize(""), "");
    assert_eq!(normalize("\n\n"), "");
    assert_eq!(normalize("# nothing here"), "");
}

#[test]
fn single_record_is_returned_without_line_feed() {
    assert_eq!(normalize("a=1\n"), "a=1");
    assert_eq!(normalize("a=1"), "a=1");
}

#[test]
fn text_beyond_ascii_is_ordered_by_code_point() {
    assert_eq!(normalize("é=1\nz=2\n日本=3\na=4"), "a=4\nz=2\né=1\n日本=3");
    assert_eq!(normalize("名=ん\n名=あ"), "名=あ");
}

#[test]
fn normalizing_twice_gives_the_same_text() {
    let text = "pv_002.song_name=b\n#c\npv_001.song_name=a\npv_001.song_name=A\n";
    assert_eq!(normalize(text), normalize(text));
    assert_eq!(normalize(text), "pv_001.song_name=A\npv_002.song_name=b");
}

#[test]
fn file_order_does_not_matter() {
    let a = "x.1=a\ny=2\nx.0=b\ny=1\n#z=0\n";
    let b = "#z=0\ny=1\nx.0=b\ny=2\nx.1=a";
    assert_eq!(normalize(a), normalize(b));
    assert_eq!(normalize(a), "x.0=b\nx.1=a\ny=1");
}

#[test]
fn ignored_lines_do_not_change_the_result() {
    let plain = "b=1\na=2";
    let noisy = "#b=0\nb=1\nno separator\n\na=2\n#a=0";
    assert_eq!(normalize(plain), normalize(noisy));
}

#[test]
fn agrees_with_sort_and_dedup() {
    let texts = [
        "",
        "a=1",
        "foo.bar=2\nfoo.bar=1",
        "pv_1=x\npv_10=y\npv_1.a=z\npv_1=w",
        "k=2\r\nk=1\r\n#k=0\r\nm\r\n",
        "a=1\nab=1\na-=1\na.b=1\na=0\nab=0",
        "b.0=1\nb.1=2\nb.length=2\na=\na=\n=a",
        "é=1\nz=2\n日本=3\na=4\né=0",
        "x=1\n\n\ny=2\n",
        "pv_010.song_name=b\npv_001.song_name=a\npv_010.date=1\npv_001.date=2",
    ];
    for text in texts {
        assert_eq!(normalize(text), by_sort_and_dedup(text), "for {:?}", text);
    }
}

#[test]
fn many_lines_are_sorted_and_deduplicated() {
    let mut text = String::new();
    for i in (0..500).rev() {
        text.push_str(&format!("key.{}={}\n", i % 100, i));
    }
    let normal = normalize(&text);
    assert_eq!(normal, by_sort_and_dedup(&text));
    assert_eq!(normal.lines().count(), 100);
}

#[test]
fn large_text_is_normalized() {
    let mut text = String::new();
    for i in 0..20_000u32 {
        let id = (i * 7919) % 5_000;
        text.push_str(&format!("pv_{:03}.song_name=name {}\n", id, i));
        if i % 50 == 0 {
            text.push_str("# a comment between the records\n");
        }
    }
    let normal = normalize(&text);
    assert_eq!(normal.lines().count(), 5_000);
    assert_eq!(normal, by_sort_and_dedup(&text));
}
