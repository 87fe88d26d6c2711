use knot::composer_scan::escape_token;
use knot::composer_scan::scan;
use knot::composer_scan::tokens_on_line;
use knot::composer_scan::Construct;
use knot::composer_scan::Span;

fn found(text: &str, construct: Construct) -> Vec<&str> {
    slices(text, &scan(text, &[]), construct)
}

fn slices<'a>(text: &'a str, spans: &[Span], construct: Construct) -> Vec<&'a str> {
    spans.iter()
         .filter(|span| span.construct == construct)
         .map(|span| &text[span.range.clone()])
         .collect()
}

#[test]
fn a_leading_slash_is_a_token() {
    assert_eq!(found("/review the diff", Construct::SlashToken),
               vec!["/review"]);
}

#[test]
fn a_bare_slash_is_already_a_token() {
    assert_eq!(found("/", Construct::SlashToken), vec!["/"]);
}

#[test]
fn an_unresolvable_token_is_still_a_token() {
    assert_eq!(found("/nosuchcommand", Construct::SlashToken),
               vec!["/nosuchcommand"]);
}

#[test]
fn a_path_is_not_a_token() {
    assert!(found("crates/knot/src", Construct::SlashToken).is_empty(),
            "a slash mid-word is a separator, and a path full of them is still one thing");
}

#[test]
fn a_slash_is_a_token_only_at_the_head_of_its_line() {
    assert!(found("please /review", Construct::SlashToken).is_empty());
    assert_eq!(found("first\n/review", Construct::SlashToken),
               vec!["/review"]);
    assert_eq!(found("   /review", Construct::SlashToken),
               vec!["/review"],
               "indentation before the slash still leaves it leading");
}

#[test]
fn a_mention_after_a_space_is_a_token() {
    assert_eq!(found("look at @crates/knot-git/src/lib.rs now",
                     Construct::Mention),
               vec!["@crates/knot-git/src/lib.rs"]);
}

#[test]
fn a_mention_at_the_start_of_the_buffer_is_a_token() {
    assert_eq!(found("@README.md", Construct::Mention), vec!["@README.md"]);
}

#[test]
fn an_email_address_is_not_a_mention() {
    assert!(found("write to paul@example.com", Construct::Mention).is_empty(),
            "the `@` follows a letter, so it is part of an address rather than a trigger");
}

#[test]
fn a_mention_holding_slashes_is_one_token() {
    let text = "@crates/knot/src";
    assert_eq!(found(text, Construct::Mention), vec!["@crates/knot/src"]);
    assert!(found(text, Construct::SlashToken).is_empty());
}

#[test]
fn several_mentions_on_one_line_are_separate_tokens() {
    assert_eq!(found("diff @a.rs against @b.rs", Construct::Mention),
               vec!["@a.rs", "@b.rs"]);
}

#[test]
fn a_buffer_can_hold_both_kinds_of_token() {
    let text = "/review\nand @lib.rs";
    assert_eq!(found(text, Construct::SlashToken), vec!["/review"]);
    assert_eq!(found(text, Construct::Mention), vec!["@lib.rs"]);
}

#[test]
fn an_attachment_reference_is_found_wherever_it_sits() {
    let text = "see @shot.png and @shot.png again";
    let spans = scan(text, &["@shot.png"]);
    assert_eq!(slices(text, &spans, Construct::Attachment),
               vec!["@shot.png", "@shot.png"],
               "the same file attached twice is two chips, not one");
}

#[test]
fn an_escaped_space_does_not_end_a_token() {
    assert_eq!(found(r"@my\ notes/today.md here", Construct::Mention),
               vec![r"@my\ notes/today.md"],
               "the escaped space is inside the token; the unescaped one ends it");
}

#[test]
fn an_unescaped_space_still_ends_a_token() {
    assert_eq!(found("@notes.md and more", Construct::Mention),
               vec!["@notes.md"]);
}

#[test]
fn what_escaping_writes_the_scanner_reads_as_one_token() {
    for path in ["plain.rs",
                 "my notes/today.md",
                 "two  spaces.md",
                 r"back\slash.rs",
                 "trailing space .md"]
    {
        let buffer = format!("see @{} end", escape_token(path));
        let found = found(&buffer, Construct::Mention);

        assert_eq!(found.len(), 1, "{path:?} produced {found:?}");
        assert_eq!(found[0],
                   format!("@{}", escape_token(path)),
                   "the whole escaped path has to be the token");
    }
}

#[test]
fn escaping_leaves_an_ordinary_path_alone() {
    assert_eq!(escape_token("crates/knot-git/src/lib.rs"),
               "crates/knot-git/src/lib.rs",
               "a path with nothing to protect must not grow backslashes");
}

#[test]
fn spans_at_one_offset_come_in_construct_order() {
    let text = "@x y";
    let spans = scan(text, &["@x y"]);
    assert_eq!(spans,
               vec![Span { range: 0..4, construct: Construct::Attachment },
                    Span { range: 0..2, construct: Construct::Mention }]);
}

#[test]
fn the_line_tokens_are_the_scans_tokens_on_that_line() {
    let text = "/plan @a\n**b** @c /d\n@e";
    let whole = scan(text, &[]);
    for offset in [0, 4, 9, 14, 22, text.len()] {
        let line_start = text[..offset].rfind('\n').map_or(0, |i| i + 1);
        let line_end = text[offset..].find('\n').map_or(text.len(), |i| offset + i);
        let expected: Vec<Span> = whole.iter()
                                       .filter(|s| {
                                           matches!(s.construct, Construct::SlashToken | Construct::Mention)
                                           && line_start <= s.range.start
                                           && s.range.start < line_end
                                       })
                                       .map(|s| Span { range: s.range.clone(), construct: s.construct })
                                       .collect();
        assert_eq!(tokens_on_line(text, offset), expected, "offset {offset}");
    }
}
