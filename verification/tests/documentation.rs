//! The command reference.
use arkel::docs::{
    linkify_subcommands, lines, regroup, sections, strip_clap_footer, top_level, Role,
};

const PAGE: &str = "# Reference\n\n## `arkel`\n\n* `storage` \u{2014} run\n* `--data-dir <D>` \u{2014} where\n\n\
## `arkel storage`\n\nStore.\n\n## `arkel client put`\n\nPut.\n\n## `arkel repair`\n\nMend.\n\n\
## `arkel index`\n\nHidden.\n\n<hr/>\n\n<small>generated automatically by x</small>";

#[test]
fn footers_are_dropped() {
    assert_eq!(strip_clap_footer("text\n\n<hr/>\n generated automatically by x"), "text");
    assert_eq!(strip_clap_footer("a <hr/> b <hr/> generated automatically by"), "a <hr/> b");
    assert_eq!(strip_clap_footer("text <hr/>"), "text <hr/>");
    assert_eq!(strip_clap_footer("generated automatically by"), "generated automatically by");
}

#[test]
fn lines_are_as_in_std() {
    for s in ["", "a", "a\n", "a\r\nb", "\n\n", "a\n\nb\r", "\r\n"] {
        let expected: Vec<&str> = s.lines().collect();
        assert_eq!(lines(s), expected);
    }
}

#[test]
fn sections_begin_at_their_headers() {
    let page = "intro\n## `arkel`\n\n body \n## `arkel x`\n### sub\n";
    assert_eq!(
        sections(page),
        vec![
            ("## `arkel`".to_string(), "body".to_string()),
            ("## `arkel x`".to_string(), "### sub".to_string()),
        ]
    );
    assert_eq!(sections("nothing"), vec![]);
}

#[test]
fn headers_name_a_command() {
    assert_eq!(top_level("## `arkel client put`"), "client");
    assert_eq!(top_level("## `arkel storage`"), "storage");
    assert_eq!(top_level("## `arkel`"), "");
    assert_eq!(top_level("something else"), "");
}

#[test]
fn subcommands_become_links() {
    assert_eq!(
        linkify_subcommands("  * `storage` \u{2014} run\n* `--flag`\nplain"),
        "* [`storage`](#arkel-storage) \u{2014} run\n* `--flag`\nplain\n"
    );
    assert_eq!(linkify_subcommands("* `open"), "* `open\n");
}

#[test]
fn roles_have_their_commands() {
    assert_eq!(Role::User.title(), "Using Arkel");
    assert!(Role::User.includes("client") && Role::User.includes("account"));
    assert!(Role::StorageOperator.includes("storage"));
    assert!(Role::NetworkOperator.includes("payment"));
    assert!(!Role::NetworkOperator.includes("index"));
}

#[test]
fn pages_are_grouped_by_role() {
    let page = regroup(&strip_clap_footer(PAGE));
    let expected = "## Overview\n\n###### **Index:**\n\n\
* [Using Arkel](#using-arkel)\n\
* [Running a storage node](#running-a-storage-node)\n\
* [Operating the network](#operating-the-network)\n\n\
* [`storage`](#arkel-storage) \u{2014} run\n* `--data-dir <D>` \u{2014} where\n\n\n\
## Using Arkel\n\n### `arkel client put`\nPut.\n\n\
## Running a storage node\n\n### `arkel storage`\nStore.\n\n\
## Operating the network\n\n### `arkel repair`\nMend.\n\n";
    assert_eq!(page, expected);
}
