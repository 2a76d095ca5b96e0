use mangadl_rs::manga::Manga;

fn title(id: &str, alternatives: &[&str], genres: &[&str]) -> Manga {
    Manga {
        i: id.to_string(),
        s: format!("Name {}", id),
        o: String::new(),
        ss: String::new(),
        ps: String::new(),
        t: String::new(),
        v: String::new(),
        vm: String::new(),
        y: String::new(),
        a: Vec::new(),
        al: alternatives.iter().map(|s| s.to_string()).collect(),
        l: String::new(),
        lt: 0,
        ls: serde_json::Value::Null,
        g: genres.iter().map(|s| s.to_string()).collect(),
        h: false,
    }
}

#[test]
fn filter_keeps_titles_with_every_genre() {
    let all = vec![title("a", &[], &["Action", "Drama"]), title("b", &[], &["Drama"]), title("c", &[], &["Drama", "Action", "Comedy"])];
    let kept = Manga::filter_manga(vec!["Action".to_string(), "Drama".to_string()], all).unwrap();
    assert_eq!(kept.iter().map(|m| m.i.as_str()).collect::<Vec<_>>(), vec!["a", "c"]);
}

#[test]
fn filter_without_genres_keeps_everything() {
    let all = vec![title("a", &[], &[]), title("b", &[], &["Drama"])];
    assert_eq!(Manga::filter_manga(Vec::new(), all).unwrap().len(), 2);
}

#[test]
fn genres_once_each_in_first_order() {
    let all = vec![title("a", &[], &["Drama", "Action", "Drama"]), title("b", &[], &["Comedy", "Action"])];
    assert_eq!(Manga::find_all_genre(&all), vec!["Drama".to_string(), "Action".to_string(), "Comedy".to_string()]);
}

#[test]
fn label_with_and_without_alternatives() {
    assert_eq!(title("a", &[], &[]).label(), "Name a");
    assert_eq!(title("a", &["X"], &[]).label(), "Name a (X)");
    assert_eq!(title("a", &["X", "Y", "Z"], &[]).label(), "Name a (X, Y, Z)");
}
