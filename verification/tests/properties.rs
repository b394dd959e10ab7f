use codeowner::{CodeOwners, ErrorKind, Owner, Pattern, PatternError};

// ---------- the deciding rule ----------

#[test]
fn the_last_matching_rule_decides() {
    let co = CodeOwners::parse("*.rs @a\n/src/ @b\nsrc/lib.rs @c\n*.md @d\n");
    assert_eq!(co.rule_for("src/lib.rs").unwrap().line, 3);
    assert_eq!(co.rule_for("src/main.rs").unwrap().line, 2);
    assert_eq!(co.rule_for("main.rs").unwrap().line, 1);
    assert!(co.rule_for("Makefile").is_none());
}

#[test]
fn rule_for_is_the_last_of_all_matching() {
    let co = CodeOwners::parse("* @a\n/src/ @b\n*.toml @c\nsrc/*.rs @d\n");
    for path in ["src/main.rs", "src/Cargo.toml", "Cargo.toml", "README.md", "src/a/b.rs"] {
        let all = co.all_matching(path);
        let lines: Vec<usize> = all.iter().map(|r| r.line).collect();
        let mut sorted = lines.clone();
        sorted.sort();
        assert_eq!(lines, sorted, "file order for {path}");
        assert_eq!(co.rule_for(path).map(|r| r.line), lines.last().copied(), "{path}");
    }
    let lines: Vec<usize> = co.all_matching("src/main.rs").iter().map(|r| r.line).collect();
    assert_eq!(lines, [1, 2, 4]);
}

#[test]
fn of_distinguishes_owned_unowned_and_unmatched() {
    let co = CodeOwners::parse("/lib/ @alice @org/team\n/lib/vendor/\n");
    assert_eq!(
        co.of("lib/a.c"),
        Some(&[Owner::user("alice"), Owner::team("org", "team")][..])
    );
    assert_eq!(co.of("lib/vendor/x.c"), Some(&[][..]));
    assert_eq!(co.of("bin/a.c"), None);
}

#[test]
fn shadowed_rules_never_decide() {
    let co = CodeOwners::parse("/docs/ @a\n*.md @b\n/docs/ @c\n*.md @d\n/tools/ @e\n");
    let shadowed: Vec<usize> = co.shadowed().iter().map(|r| r.line).collect();
    assert_eq!(shadowed, [1, 2]);
    for path in ["docs/a.md", "docs/x.txt", "README.md", "tools/t.sh", "other"] {
        if let Some(rule) = co.rule_for(path) {
            assert!(!shadowed.contains(&rule.line), "{path} decided by shadowed rule");
        }
    }
}

#[test]
fn a_specific_rule_above_a_catch_all_is_shadowed() {
    let co = CodeOwners::parse("/src/parser/ @alice\n* @everyone\n");
    let lines: Vec<usize> = co.shadowed().iter().map(|r| r.line).collect();
    assert_eq!(lines, [1]);
    for catch_all in ["**", "/**", "**/", "***", "**/**"] {
        let co = CodeOwners::parse(&format!("*.rs @a\n/x/ @b\n{catch_all} @c\n"));
        let lines: Vec<usize> = co.shadowed().iter().map(|r| r.line).collect();
        assert_eq!(lines, [1, 2], "{catch_all}");
        for path in ["a.rs", "x/y", "z", "deep/er/path.txt"] {
            assert_eq!(co.rule_for(path).unwrap().line, 3, "{catch_all} on {path}");
        }
    }
    for not_catch_all in ["/*", "*/", "*.rs", "/docs/**"] {
        let co = CodeOwners::parse(&format!("x @b\n{not_catch_all} @c\n"));
        assert!(co.shadowed().is_empty(), "{not_catch_all}");
    }
}

fn shadowed_lines(text: &str) -> Vec<usize> {
    CodeOwners::parse(text).shadowed().iter().map(|r| r.line).collect()
}

#[test]
fn a_rule_within_a_later_pattern_is_shadowed() {
    // Every path the first pattern matches, the second matches too.
    for (first, later) in [
        ("/a", "a"),
        ("/src/parser/", "/src/"),
        ("/src/parser", "/src/"),
        ("logs", "**/logs"),
        ("**/a", "a"),
        ("/docs/README.md", "README.md"),
        ("/x/y/z.txt", "y/"),
        ("docs/*", "docs/"),
        ("*.test.js", "*.js"),
        ("file-?.txt", "file-*"),
        ("/x/", "*/"),
        ("docs/*", "/docs/*"),
    ] {
        let text = format!("{first} @a\n{later} @b\n");
        assert_eq!(shadowed_lines(&text), [1], "{first} before {later}");
        let co = CodeOwners::parse(&text);
        for path in ["a", "x/a", "src/parser/p.rs", "src/parser", "logs", "q/logs", "docs/README.md",
            "x/y/z.txt", "docs/guide", "a.test.js", "file-1.txt", "x/x", "docs/x/y"]
        {
            if let Some(rule) = co.rule_for(path) {
                assert_eq!(rule.line, 2, "{first} before {later} on {path}");
            }
        }
    }
}

#[test]
fn a_rule_reaching_past_a_later_pattern_is_kept() {
    // In each pair the first pattern matches a path the second does not.
    for (first, later, only_first) in [
        ("a", "/a", "x/a"),
        ("/src/", "/src/parser/", "src/main.rs"),
        ("foo", "foo/", "foo"),
        ("*.js", "*.test.js", "a.js"),
        ("file-*", "file-?.txt", "file-10.txt"),
        ("a/**", "a/", "a"),
        ("/build/**", "build/", "build"),
        ("/a/b/", "/a/*", "a/b/c"),
        ("**/logs", "/logs", "x/logs"),
    ] {
        let text = format!("{first} @a\n{later} @b\n");
        assert!(shadowed_lines(&text).is_empty(), "{first} before {later}");
        let co = CodeOwners::parse(&text);
        assert_eq!(co.rule_for(only_first).unwrap().line, 1, "{first} before {later}");
    }
}

#[test]
fn the_file_with_a_root_rule_above_its_unanchored_twin() {
    assert_eq!(shadowed_lines("/a\na\n"), [1]);
    assert_eq!(shadowed_lines("/a @x\na @y\n"), [1]);
    assert_eq!(shadowed_lines("a @y\n/a @x\n"), Vec::<usize>::new());
}

#[test]
fn blanking_an_invalid_line_keeps_the_rules() {
    let with_error = CodeOwners::parse("*.rs @a\n!bad @b\n*.md @c\n*.c @bad!\n");
    let blanked = CodeOwners::parse("*.rs @a\n\n*.md @c\n*.c @bad!\n");
    assert_eq!(with_error.rules(), blanked.rules());
    assert_eq!(with_error.errors().len(), 2);
    assert_eq!(blanked.errors(), &with_error.errors()[1..]);
}

#[test]
fn copies_are_equal() {
    let co = CodeOwners::parse("* @a @org/t x@y.z\n!bad\n/src/ \n");
    let copy = co.clone();
    assert_eq!(copy, co);
    assert_eq!(copy.rules()[0].clone(), co.rules()[0]);
    assert_eq!(copy.errors()[0].clone(), co.errors()[0]);
    assert_eq!(copy.of("src/a"), Some(&[][..]));
}

#[test]
fn rules_and_errors_accessors() {
    let co = CodeOwners::parse("a @x\n\n!b @y\nc @z\n");
    assert_eq!(co.rules().len(), 2);
    assert_eq!(co.rules()[1].line, 4);
    assert_eq!(co.rules()[0].pattern.as_str(), "a");
    assert_eq!(co.errors().len(), 1);
    assert!(!co.is_empty());
    assert!(!co.rules()[0].is_unowned());
    assert!(CodeOwners::default().is_empty());
    assert!(CodeOwners::default().errors().is_empty());
}

// ---------- every line is accounted for ----------

#[test]
fn every_nonblank_line_is_one_rule_or_one_error() {
    let text = "# head\n*.rs @a\n\n[x] @b\n  \t \n*.md @@c\n/x/ # trailing\n!neg\ndocs/ a@b.co\n";
    let co = CodeOwners::parse(text);
    let mut rule_lines: Vec<usize> = co.rules().iter().map(|r| r.line).collect();
    let err_lines: Vec<usize> = co.errors().iter().map(|e| e.line).collect();
    assert_eq!(rule_lines, [2, 7, 9]);
    assert_eq!(err_lines, [4, 6, 8]);
    rule_lines.extend(err_lines);
    rule_lines.sort();
    assert_eq!(rule_lines, [2, 4, 6, 7, 8, 9]);
    assert_eq!(co.rules()[1].pattern.as_str(), "/x/");
    assert!(co.rules()[1].is_unowned());
}

#[test]
fn error_texts_are_the_whole_line_trimmed() {
    let co = CodeOwners::parse("   *.md   @ok  @no!pe   # remark  \n");
    assert_eq!(co.errors()[0].text, "*.md   @ok  @no!pe   # remark");
    assert_eq!(co.errors()[0].kind, ErrorKind::BadOwner(String::from("@no!pe")));

    let co = CodeOwners::parse("*.md @bad!owner # fix me\n");
    assert!(co.rules().is_empty());
    assert_eq!(co.errors().len(), 1);
    assert_eq!(co.errors()[0].line, 1);
    assert_eq!(co.errors()[0].text, "*.md @bad!owner # fix me");
}

#[test]
fn tabs_and_unicode_spaces_separate_tokens() {
    let co = CodeOwners::parse("*.rs\t@alice\u{3000}@bob\u{a0}\n");
    assert_eq!(co.of("x.rs"), Some(&[Owner::user("alice"), Owner::user("bob")][..]));
    assert!(co.errors().is_empty());
}

#[test]
fn a_file_without_final_newline_keeps_its_last_line() {
    let co = CodeOwners::parse("*.rs @a\n*.md @b");
    assert_eq!(co.rules().len(), 2);
    assert_eq!(co.of("x.md"), Some(&[Owner::user("b")][..]));
}

// ---------- error variants and their reports ----------

#[test]
fn every_error_kind_is_reported() {
    let co = CodeOwners::parse("![x] @a\n*.[ch] @a\n/ @a\n*.c @\n*.c a@b\n");
    let kinds: Vec<ErrorKind> = co.errors().iter().map(|e| e.kind.clone()).collect();
    assert_eq!(
        kinds,
        [
            ErrorKind::BadPattern(PatternError::Negation),
            ErrorKind::BadPattern(PatternError::CharacterRange),
            ErrorKind::BadPattern(PatternError::Empty),
            ErrorKind::BadOwner(String::from("@")),
            ErrorKind::BadOwner(String::from("a@b")),
        ]
    );
    assert!(co.rules().is_empty());
}

#[test]
fn error_reports_spell_out_the_problem() {
    let co = CodeOwners::parse("!x @a\n*.[ch] @a\n/ @a\n");
    let texts: Vec<String> = co.errors().iter().map(|e| e.to_string()).collect();
    assert_eq!(
        texts,
        [
            "line 1: `!` negation is not supported in CODEOWNERS",
            "line 2: `[ ]` character ranges are not supported in CODEOWNERS",
            "line 3: empty pattern",
        ]
    );
    assert_eq!(PatternError::Empty.to_string(), "empty pattern");
    assert_eq!(
        ErrorKind::BadOwner(String::from("x")).to_string(),
        "`x` is not a valid owner"
    );
}

#[test]
fn line_numbers_are_written_in_decimal() {
    let mut text = String::new();
    for _ in 0..106 {
        text.push('\n');
    }
    text.push_str("*.c @bad!\n");
    let co = CodeOwners::parse(&text);
    assert_eq!(co.errors()[0].line, 107);
    assert_eq!(co.errors()[0].to_string(), "line 107: `@bad!` is not a valid owner");
}

// ---------- owners ----------

#[test]
fn owners_round_trip_through_their_text() {
    for token in ["@a-b", "@org/team.x_y", "first.last@mail.example.org", "@X9"] {
        let owner = Owner::parse(token).unwrap();
        assert_eq!(owner.to_string(), token);
        assert_eq!(Owner::parse(&owner.to_string()), Some(owner));
    }
}

#[test]
fn login_and_slug_rules() {
    assert_eq!(Owner::parse(&format!("@{}", "a".repeat(39))), Some(Owner::user(&"a".repeat(39))));
    assert_eq!(Owner::parse(&format!("@{}", "a".repeat(40))), None);
    assert_eq!(Owner::parse("@-alice"), None);
    assert_eq!(Owner::parse("@alice-"), None);
    assert_eq!(Owner::parse("@al_ice"), None);
    assert_eq!(Owner::parse("@org/te_am.1"), Some(Owner::team("org", "te_am.1")));
    assert_eq!(Owner::parse("@o_rg/team"), None);
    assert_eq!(Owner::parse("@ålice"), None);
}

#[test]
fn email_rules_are_loose() {
    assert_eq!(Owner::parse("x@y.z"), Some(Owner::email("x@y.z")));
    assert_eq!(Owner::parse("x@.yz"), None);
    assert_eq!(Owner::parse("x@yz"), None);
    assert_eq!(Owner::parse("x@y@z.w"), Some(Owner::email("x@y@z.w")));
}

// ---------- patterns ----------

#[test]
fn leading_and_doubled_slashes_in_queries_are_ignored() {
    let p = Pattern::new("/src/*.rs").unwrap();
    for path in ["src/a.rs", "/src/a.rs", "src//a.rs", "//src/a.rs/"] {
        assert!(p.matches(path), "{path}");
    }
    assert!(!p.matches(""));
    assert!(!p.matches("/"));
}

#[test]
fn unanchored_patterns_match_at_any_depth() {
    for raw in ["*.rs", "lib.rs", "logs/", "l?b.rs"] {
        let p = Pattern::new(raw).unwrap();
        let base = if raw == "logs/" { "logs/x" } else { "lib.rs" };
        assert!(p.matches(base), "{raw} on {base}");
        assert!(p.matches(&format!("a/{base}")), "{raw}");
        assert!(p.matches(&format!("a/b/c/{base}")), "{raw}");
    }
}

#[test]
fn directory_patterns_cover_everything_beneath() {
    for raw in ["/build/logs/", "/build/logs", "**/logs", "build/logs"] {
        let p = Pattern::new(raw).unwrap();
        assert!(p.matches("build/logs/a"), "{raw}");
        assert!(p.matches("build/logs/a/b/c.txt"), "{raw}");
    }
    assert!(!Pattern::new("/build/logs/").unwrap().matches("build/logs"));
    assert!(Pattern::new("/build/logs").unwrap().matches("build/logs"));
}

#[test]
fn a_trailing_wildcard_never_stands_for_a_directory() {
    let p = Pattern::new("docs/*.md").unwrap();
    assert!(p.matches("docs/a.md"));
    assert!(!p.matches("docs/a.md/b.txt"));
    assert!(!p.matches("docs/sub/b.txt"));
    let q = Pattern::new("/docs/**").unwrap();
    assert!(q.matches("docs/sub/b.txt"));
}

#[test]
fn glob_wildcards() {
    let p = Pattern::new("a*b?c").unwrap();
    assert!(p.matches("abxc"));
    assert!(p.matches("a123b4c"));
    assert!(!p.matches("abc"));
    assert!(Pattern::new("*").unwrap().matches("x/y/z"));
    assert!(Pattern::new("**").unwrap().matches("x"));
    assert!(Pattern::new("?").unwrap().matches("é"));
    assert!(Pattern::new("*x*").unwrap().matches("a*x*b"));
    assert!(Pattern::new("*b").unwrap().matches("*b"));
}

#[test]
fn pattern_text_and_copies() {
    let p = Pattern::new("/a//b/").unwrap();
    assert_eq!(p.as_str(), "/a//b/");
    let q = p.clone();
    assert_eq!(q.as_str(), "/a//b/");
    assert!(q.matches("a/b/c"));
    assert!(!q.matches("a/b"));
    assert_eq!(Pattern::new("////"), Err(PatternError::Empty));
}
