use codeowner::{CodeOwners, Owner, Pattern};

#[test]
fn readme_headline_example() {
    let owners = CodeOwners::parse(
        "\
*                @org/platform
/services/auth/  @org/security
**/*.pem         @org/security
/vendor/
",
    );
    assert_eq!(owners.of("services/auth/login.rs"), Some(&[Owner::team("org", "security")][..]));
    assert_eq!(owners.of("README.md"), Some(&[Owner::team("org", "platform")][..]));
    assert_eq!(owners.of("vendor/lib.c").map(<[_]>::len), Some(0));
}

#[test]
fn crate_doc_example() {
    let owners = CodeOwners::parse(
        "\
*                @org/everyone
/src/parser/     @alice
*.md             docs@example.com
",
    );
    assert_eq!(owners.of("src/parser/lexer.rs"), Some(&[Owner::user("alice")][..]));
    assert_eq!(owners.of("README.md"), Some(&[Owner::email("docs@example.com")][..]));
    assert_eq!(owners.of("build.sh"), Some(&[Owner::team("org", "everyone")][..]));
}

#[test]
fn errors_are_data_examples() {
    let owners = CodeOwners::parse("*.rs @alice\n![!]bad @bob\n");
    assert_eq!(owners.rules().len(), 1);
    assert_eq!(owners.errors().len(), 1);
    assert_eq!(owners.errors()[0].line, 2);

    let owners = CodeOwners::parse("*.rs @alice\n*.md @bad!owner\n");
    assert_eq!(owners.rules().len(), 1);
    assert_eq!(owners.errors()[0].to_string(), "line 2: `@bad!owner` is not a valid owner");
}

#[test]
fn owner_parse_doc_examples() {
    assert_eq!(Owner::parse("@alice"), Some(Owner::user("alice")));
    assert_eq!(Owner::parse("@org/team"), Some(Owner::team("org", "team")));
    assert_eq!(Owner::parse("a@b.com"), Some(Owner::email("a@b.com")));
    assert_eq!(Owner::parse("nonsense"), None);
}

#[test]
fn leftover_backslash_is_a_literal_pattern() {
    let owners = CodeOwners::parse("\\#config @alice\n");
    assert_eq!(owners.rules().len(), 1);
    assert_eq!(owners.rules()[0].pattern.as_str(), "\\");
    assert!(owners.rules()[0].is_unowned());
    assert!(Pattern::new("\\").unwrap().matches("a/\\"));
}
