use mangadl_rs::chapter::Chapter;
use mangadl_rs::lanes::{aggregate, partition};
use mangadl_rs::sinks::{address_list_file_name, address_list_lines, address_list_text};

#[test]
fn single_chapter_to_address_list() {
    let chapters = vec![Chapter { Chapter: "1000".to_string(), Page: "6".to_string(), Directory: String::new() }];
    let page = "vm.CurPathName = \"scans.example.org\";";
    let lanes = partition(chapters, 1);
    let mut results = Vec::new();
    for lane in lanes {
        let mut out = Vec::new();
        for c in lane {
            out.extend(c.resolve(page, "123").unwrap());
        }
        results.push(out);
    }
    let urls = aggregate(results);
    assert_eq!(address_list_file_name("123"), "123.txt");
    let text = address_list_text(&urls);
    let lines = address_list_lines(&text);
    assert_eq!(lines.len(), 5);
    for (k, line) in lines.iter().enumerate() {
        assert!(line.contains("/123/0100-00"));
        assert!(line.ends_with(&format!("{:03}.png", k + 1)));
    }
}

#[test]
fn two_lanes_give_the_same_list_as_one() {
    let chapters = || {
        vec![
            Chapter { Chapter: "1010".to_string(), Page: "3".to_string(), Directory: String::new() },
            Chapter { Chapter: "1005".to_string(), Page: "2".to_string(), Directory: String::new() },
            Chapter { Chapter: "1000".to_string(), Page: "4".to_string(), Directory: String::new() },
        ]
    };
    let page = "vm.CurPathName = \"h\";";
    let run = |w: usize| {
        let lanes = partition(chapters(), w);
        let results: Vec<Vec<String>> = lanes
            .into_iter()
            .rev()
            .map(|lane| lane.into_iter().flat_map(|c| c.resolve(page, "T").unwrap()).collect())
            .collect();
        aggregate(results)
    };
    let one = run(1);
    assert_eq!(one, run(2));
    assert_eq!(one, run(3));
    assert_eq!(one.len(), 6);
    assert_eq!(one[0], "https://h/manga/T/0100-001.png");
    assert_eq!(one[3], "https://h/manga/T/0101-001.png");
    assert_eq!(one[5], "https://h/manga/T/100.5-001.png");
}
