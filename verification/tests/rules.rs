use filter_tokens::rules_from_lists;

fn lines(texts: &[&str]) -> Vec<String> {
    texts.iter().map(|text| String::from(*text)).collect()
}

#[test]
fn rules_of_several_lists_are_joined_in_order() {
    let lists = vec![
        lines(&["||ads.example.com^", "@@||good.example.com^"]),
        lines(&[]),
        lines(&["/banner/*"]),
        lines(&["||ads.example.com^", ""]),
    ];
    let rules = rules_from_lists(lists);
    assert_eq!(
        rules,
        lines(&[
            "||ads.example.com^",
            "@@||good.example.com^",
            "/banner/*",
            "||ads.example.com^",
            "",
        ])
    );
}

#[test]
fn rules_of_no_list() {
    assert_eq!(rules_from_lists(Vec::new()), Vec::<String>::new());
    assert_eq!(rules_from_lists(vec![Vec::new(), Vec::new()]), Vec::<String>::new());
}

#[test]
fn rules_of_one_list() {
    let list = lines(&["a", "b", "c"]);
    assert_eq!(rules_from_lists(vec![list.clone()]), list);
}
