use filter_tokens::{
    fast_hash, fast_tokenizer, fast_tokenizer_no_regex, is_allowed_filter, is_allowed_hostname,
    keeps_token, tokenize, tokenize_filter, tokenize_hostnames, Alphabet, TOKENS_BUFFER_SIZE,
};

fn t(tokens: &[&str]) -> Vec<u32> {
    tokens.into_iter().map(|t| fast_hash(&t)).collect()
}

#[test]
fn tokenize_filter_works() {
    assert_eq!(
        tokenize_filter("", false, false).as_slice(),
        t(&vec![]).as_slice()
    );
    assert_eq!(
        tokenize_filter("", true, false).as_slice(),
        t(&vec![]).as_slice()
    );
    assert_eq!(
        tokenize_filter("", false, true).as_slice(),
        t(&vec![]).as_slice()
    );
    assert_eq!(
        tokenize_filter("", true, true).as_slice(),
        t(&vec![]).as_slice()
    );
    assert_eq!(
        tokenize_filter("", false, false).as_slice(),
        t(&vec![]).as_slice()
    );

    assert_eq!(
        tokenize_filter("foo/bar baz", false, false).as_slice(),
        t(&vec!["foo", "bar", "baz"]).as_slice()
    );
    assert_eq!(
        tokenize_filter("foo/bar baz", true, false).as_slice(),
        t(&vec!["bar", "baz"]).as_slice()
    );
    assert_eq!(
        tokenize_filter("foo/bar baz", true, true).as_slice(),
        t(&vec!["bar"]).as_slice()
    );
    assert_eq!(
        tokenize_filter("foo/bar baz", false, true).as_slice(),
        t(&vec!["foo", "bar"]).as_slice()
    );
    assert_eq!(
        tokenize_filter("foo////bar baz", false, true).as_slice(),
        t(&vec!["foo", "bar"]).as_slice()
    );
}

#[test]
fn tokenize_host_works() {
    assert_eq!(
        tokenize_hostnames("").as_slice(),
        t(&vec![]).as_slice()
    );
    assert_eq!(
        tokenize_hostnames("foo").as_slice(),
        t(&vec!["foo"]).as_slice()
    );
    assert_eq!(
        tokenize_hostnames("foo/bar").as_slice(),
        t(&vec!["foo", "bar"]).as_slice()
    );
    assert_eq!(
        tokenize_hostnames("foo-barbaz/bar").as_slice(),
        t(&vec!["foo-barbaz", "bar"]).as_slice()
    );
    assert_eq!(
        tokenize_hostnames("foo_barbaz/ba%r").as_slice(),
        t(&vec!["foo_barbaz", "ba%r"]).as_slice()
    );

    assert_eq!(
        tokenize_hostnames("foo_barbaz/ba%r*").as_slice(),
        t(&vec!["foo_barbaz", "ba%r"]).as_slice()
    );
    assert_eq!(
        tokenize_hostnames("foo_barbaz///ba%r*").as_slice(),
        t(&vec!["foo_barbaz", "ba%r"]).as_slice()
    );
}

#[test]
fn tokenize_works() {
    assert_eq!(
        tokenize("").as_slice(),
        t(&vec![]).as_slice()
    );
    assert_eq!(
        tokenize("foo").as_slice(),
        t(&vec!["foo"]).as_slice()
    );
    assert_eq!(
        tokenize("foo/bar").as_slice(),
        t(&vec!["foo", "bar"]).as_slice()
    );
    assert_eq!(
        tokenize("foo-bar").as_slice(),
        t(&vec!["foo", "bar"]).as_slice()
    );
    assert_eq!(
        tokenize("foo.bar").as_slice(),
        t(&vec!["foo", "bar"]).as_slice()
    );
    assert_eq!(
        tokenize("foo.bar\u{1ac}").as_slice(),
        t(&vec!["foo", "bar\u{1ac}"]).as_slice()
    );

    // Tokens cannot be surrounded by *
    assert_eq!(
        tokenize("foo.bar\u{1ac}*").as_slice(),
        t(&vec!["foo"]).as_slice()
    );
    assert_eq!(
        tokenize("*foo.bar\u{1ac}").as_slice(),
        t(&vec!["bar\u{1ac}"]).as_slice()
    );
    assert_eq!(
        tokenize("*foo.bar\u{1ac}*").as_slice(),
        t(&vec![]).as_slice()
    );
}

#[test]
fn tokens_next_to_a_wildcard_are_suppressed() {
    assert_eq!(tokenize_filter("*foo.bar*", false, false), t(&[]));
    assert_eq!(tokenize_filter("foo*bar", false, false), t(&[]));
    assert_eq!(tokenize_filter("foo*.bar", false, false), t(&["bar"]));
    assert_eq!(tokenize_filter("foo.*bar", false, false), t(&["foo"]));
    assert_eq!(tokenize_filter("foo.*.bar", false, false), t(&["foo", "bar"]));
    assert_eq!(tokenize_filter("*", false, false), t(&[]));
    assert_eq!(tokenize_filter("**", false, false), t(&[]));
}

#[test]
fn the_basic_scan_knows_no_wildcard() {
    assert_eq!(fast_tokenizer("*foo.bar*", Alphabet::Filter), t(&["foo", "bar"]));
    assert_eq!(fast_tokenizer("foo*bar", Alphabet::Filter), t(&["foo", "bar"]));
    assert_eq!(tokenize_hostnames("*foo*"), t(&["foo"]));
}

#[test]
fn tokens_of_one_byte() {
    // The basic scan keeps them, the suppressing scan drops them.
    assert_eq!(fast_tokenizer("a/b/cd", Alphabet::Filter), t(&["a", "b", "cd"]));
    assert_eq!(tokenize_filter("a/b/cd", false, false), t(&["cd"]));
    assert_eq!(tokenize_filter("a", false, false), t(&[]));
    assert_eq!(tokenize_hostnames("a"), t(&["a"]));
    // One character of two bytes has more than one byte.
    assert_eq!(tokenize_filter("\u{e9}", false, false), t(&["\u{e9}"]));
    assert_eq!(tokenize_filter("a/\u{e9}/b", false, false), t(&["\u{e9}"]));
    assert_eq!(tokenize_filter("\u{4eac}.x", false, false), t(&["\u{4eac}"]));
}

#[test]
fn skip_first_spares_a_token_that_reaches_the_end() {
    assert_eq!(tokenize_filter("foo", true, false), t(&["foo"]));
    assert_eq!(tokenize_filter("foo", false, true), t(&[]));
    assert_eq!(tokenize_filter("foo", true, true), t(&[]));
    assert_eq!(tokenize_filter("foo/", true, false), t(&[]));
    assert_eq!(tokenize_filter("foo/", false, true), t(&["foo"]));
    assert_eq!(tokenize_filter("/foo/bar", true, false), t(&["foo", "bar"]));
    assert_eq!(tokenize_filter("/foo/bar/", true, true), t(&["foo", "bar"]));
}

#[test]
fn characters_of_other_scripts_belong_to_tokens() {
    assert_eq!(tokenize("\u{4eac}\u{90fd}.\u{43c}\u{438}\u{440}"), t(&["\u{4eac}\u{90fd}", "\u{43c}\u{438}\u{440}"]));
    assert_eq!(tokenize_hostnames("b\u{fc}cher-\u{663}.de"), t(&["b\u{fc}cher-\u{663}", "de"]));
    assert_eq!(tokenize("caf\u{e9} \u{2192} th\u{e9}"), t(&["caf\u{e9}", "th\u{e9}"]));
}

#[test]
fn alphabets() {
    for c in ['a', 'Z', '0', '9', '%', '\u{e9}', '\u{4eac}', '\u{663}', '\u{be}'].iter() {
        assert!(is_allowed_filter(*c));
        assert!(is_allowed_hostname(*c));
        assert!(Alphabet::Filter.allows(*c));
        assert!(Alphabet::Hostname.allows(*c));
    }
    for c in ['_', '-'].iter() {
        assert!(!is_allowed_filter(*c));
        assert!(is_allowed_hostname(*c));
        assert!(!Alphabet::Filter.allows(*c));
        assert!(Alphabet::Hostname.allows(*c));
    }
    for c in ['*', '/', '.', ' ', '^', '|', '$', '\u{0}', '\u{2192}'].iter() {
        assert!(!is_allowed_filter(*c));
        assert!(!is_allowed_hostname(*c));
    }
}

#[test]
fn alphabets_follow_the_standard_classification() {
    let mut code: u32 = 0;
    while code < 0x3000 {
        if let Some(c) = char::from_u32(code) {
            assert_eq!(is_allowed_filter(c), c.is_alphanumeric() || c == '%');
            assert_eq!(
                is_allowed_hostname(c),
                c.is_alphanumeric() || c == '%' || c == '_' || c == '-'
            );
        }
        code += 1;
    }
}

#[test]
fn the_rule_of_suppression() {
    // "foo/bar baz" with both flags: foo is first, baz is last.
    assert_eq!(keeps_token(0, 3, None, Some('/'), true, true), false);
    assert_eq!(keeps_token(4, 7, Some('/'), Some(' '), true, true), true);
    assert_eq!(keeps_token(8, 11, Some(' '), None, true, true), false);
    // Without the flags all three stay.
    assert_eq!(keeps_token(0, 3, None, Some('/'), false, false), true);
    assert_eq!(keeps_token(8, 11, Some(' '), None, false, false), true);
    // One byte is too short, two are enough.
    assert_eq!(keeps_token(4, 5, Some('/'), Some('/'), false, false), false);
    assert_eq!(keeps_token(4, 6, Some('/'), Some('/'), false, false), true);
    assert_eq!(keeps_token(4, 4, Some('/'), Some('/'), false, false), false);
    assert_eq!(keeps_token(5, 4, Some('/'), Some('/'), false, false), false);
    // A wildcard on either side.
    assert_eq!(keeps_token(1, 4, Some('*'), Some('.'), false, false), false);
    assert_eq!(keeps_token(1, 4, Some('.'), Some('*'), false, false), false);
    assert_eq!(keeps_token(1, 4, Some('*'), None, false, false), false);
    // The first run is spared when it reaches the end.
    assert_eq!(keeps_token(0, 3, None, None, true, false), true);
    assert_eq!(keeps_token(0, 3, None, None, true, true), false);
}

fn numbered_words(count: usize) -> (String, Vec<String>) {
    let mut pattern = String::new();
    let mut words: Vec<String> = Vec::new();
    for number in 0..count {
        let word = format!("word{}", number);
        pattern.push_str(&word);
        pattern.push('/');
        words.push(word);
    }
    (pattern, words)
}

#[test]
fn at_most_two_hundred_tokens() {
    assert_eq!(TOKENS_BUFFER_SIZE, 200);
    let (pattern, words) = numbered_words(300);
    let expected: Vec<u32> = words.iter().take(200).map(|w| fast_hash(w)).collect();
    assert_eq!(tokenize(&pattern), expected);
    assert_eq!(tokenize_filter(&pattern, false, false), expected);
    assert_eq!(tokenize_hostnames(&pattern), expected);
    assert_eq!(fast_tokenizer(&pattern, Alphabet::Filter), expected);
    assert_eq!(fast_tokenizer_no_regex(&pattern, Alphabet::Hostname, false, false), expected);
    assert_eq!(tokenize(&pattern).len(), 200);
}

#[test]
fn exactly_two_hundred_tokens_fit() {
    let (pattern, words) = numbered_words(200);
    let expected: Vec<u32> = words.iter().map(|w| fast_hash(w)).collect();
    assert_eq!(tokenize(&pattern), expected);
    assert_eq!(tokenize_hostnames(&pattern), expected);
    // The last of them may reach the end of the pattern.
    let open_ended = &pattern[..pattern.len() - 1];
    assert_eq!(tokenize(open_ended), expected);
    assert_eq!(tokenize_hostnames(open_ended), expected);
    let (shorter, fewer) = numbered_words(199);
    let expected: Vec<u32> = fewer.iter().map(|w| fast_hash(w)).collect();
    assert_eq!(tokenize(&shorter), expected);
}

#[test]
fn the_token_after_the_two_hundredth_is_dropped() {
    let (mut pattern, words) = numbered_words(200);
    pattern.push_str("trailing");
    let expected: Vec<u32> = words.iter().map(|w| fast_hash(w)).collect();
    assert_eq!(tokenize(&pattern), expected);
    assert_eq!(tokenize_hostnames(&pattern), expected);
}

#[test]
fn suppressed_runs_do_not_count_towards_the_cap() {
    let mut pattern = String::new();
    let mut expected: Vec<u32> = Vec::new();
    for number in 0..250 {
        pattern.push_str("x/");
        let word = format!("w{}", number);
        pattern.push_str(&word);
        pattern.push('/');
        if number < 200 {
            expected.push(fast_hash(&word));
        }
    }
    assert_eq!(tokenize(&pattern), expected);
}

#[test]
fn tokenize_is_deterministic() {
    let patterns = ["", "foo", "foo/bar baz", "*foo.bar\u{1ac}*", "||example.com^$script"];
    for pattern in patterns.iter() {
        assert_eq!(tokenize(pattern), tokenize(pattern));
        assert_eq!(tokenize_hostnames(pattern), tokenize_hostnames(pattern));
        assert_eq!(tokenize_filter(pattern, true, true), tokenize_filter(pattern, true, true));
        let copy = String::from(*pattern);
        assert_eq!(tokenize(pattern), tokenize(&copy));
    }
}

#[test]
fn tokenize_is_the_suppressing_scan_without_flags() {
    let patterns = ["", "a", "foo", "foo/bar baz", "*foo.bar*", "||example.com^$script", "a*b/c"];
    for pattern in patterns.iter() {
        assert_eq!(tokenize(pattern), tokenize_filter(pattern, false, false));
        assert_eq!(
            tokenize(pattern),
            fast_tokenizer_no_regex(pattern, Alphabet::Filter, false, false)
        );
        assert_eq!(tokenize_hostnames(pattern), fast_tokenizer(pattern, Alphabet::Hostname));
    }
}

#[test]
fn a_rule_of_a_filter_list() {
    assert_eq!(
        tokenize("||ads.example.com^$third-party"),
        t(&["ads", "example", "com", "third", "party"])
    );
    assert_eq!(
        tokenize_hostnames("ads.example-site.com"),
        t(&["ads", "example-site", "com"])
    );
    assert_eq!(
        tokenize_filter("/banner/*/img^", true, true),
        t(&["banner", "img"])
    );
    assert_eq!(
        tokenize_filter("banner/*img^", true, true),
        t(&[])
    );
    assert_eq!(
        tokenize_filter("/banner/ads/img^", false, false),
        t(&["banner", "ads", "img"])
    );
}
