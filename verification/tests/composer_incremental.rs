use std::ops::Range;

use knot::composer_scan::dirty_range;
use knot::composer_scan::rescan;
use knot::composer_scan::scan;
use knot::composer_scan::Edit;

fn apply(text: &str, replaced: Range<usize>, inserted: &str) -> (String, Edit) {
    let mut next = String::with_capacity(text.len() + inserted.len());
    next.push_str(&text[..replaced.start]);
    next.push_str(inserted);
    next.push_str(&text[replaced.end..]);
    let edit = Edit { replaced,
                      inserted: inserted.len() };
    (next, edit)
}

fn agree(start: &str, edits: &[(Range<usize>, &str)]) {
    let mut text = start.to_string();
    let mut spans = scan(&text, &[]);
    assert_eq!(spans, scan(&text, &[]), "scan must be deterministic");

    for (step, (replaced, inserted)) in edits.iter().enumerate() {
        let (next, edit) = apply(&text, replaced.clone(), inserted);
        let incremental = rescan(&next, &[], &spans, &edit);
        let whole = scan(&next, &[]);
        assert_eq!(incremental, whole,
                   "step {step}: rescan disagreed with a full scan of {next:?}");
        text = next;
        spans = incremental;
    }
}

#[test]
fn typing_a_word_agrees_with_a_full_scan() {
    agree("",
          &[(0..0, "h"),
            (1..1, "e"),
            (2..2, "l"),
            (3..3, "l"),
            (4..4, "o")]);
}

#[test]
fn closing_an_emphasis_restyles_the_line() {
    agree("a *word", &[(7..7, "*")]);
}

#[test]
fn opening_a_fence_restyles_what_follows() {
    agree("line one\nline two", &[(8..8, "\n```")]);
}

#[test]
fn closing_a_fence_far_below_the_open_agrees() {
    agree("```\none\ntwo\nthree", &[(17..17, "\n```")]);
}

#[test]
fn deleting_a_closing_fence_agrees() {
    agree("```\ncode\n```\nafter", &[(9..12, "")]);
}

#[test]
fn pasting_a_document_agrees() {
    agree("intro\n",
          &[(6..6,
             "# Heading\n\n- a list item\n\n```rust\nlet x = 1;\n```\n\nand **strong** \
                    prose with `code`.")]);
}

#[test]
fn a_multi_line_paste_into_the_middle_agrees() {
    agree("before\nafter", &[(7..7, "## Title\n\n> quoted\n\n")]);
}

#[test]
fn cutting_a_construct_out_agrees() {
    agree("keep **this** and this", &[(5..13, "")]);
}

#[test]
fn replacing_a_selection_agrees() {
    agree("see [the spec](a.md) now", &[(4..20, "`code`")]);
}

#[test]
fn undoing_a_deletion_agrees() {
    agree("```\ncode\n```", &[(9..12, ""), (9..9, "```")]);
}

#[test]
fn typing_a_token_character_by_character_agrees() {
    agree("look at ",
          &[(8..8, "@"),
            (9..9, "l"),
            (10..10, "i"),
            (11..11, "b"),
            (12..12, ".rs")]);
}

#[test]
fn editing_inside_a_fence_agrees() {
    agree("prose\n```\nlet x = 1;\n```\nmore prose", &[(19..19, "23")]);
}

#[test]
fn a_single_character_edit_is_bounded_by_its_construct() {
    let paragraph = "Some ordinary prose about the change.\n";
    let long = paragraph.repeat(400);
    let caret = paragraph.len() * 200;

    let (text, edit) = apply(&long, caret..caret, "x");
    let dirty = dirty_range(&text, &edit);

    assert!(dirty.len() <= paragraph.len(),
            "one character typed into a paragraph should dirty that paragraph's line, not \
             {} bytes of a {} byte buffer",
            dirty.len(),
            text.len());
    assert!(dirty.len() * 50 < text.len(),
            "the bound has to be a construct, not a fraction of the buffer - it would grow with \
             the prompt");
}

#[test]
fn an_edit_inside_a_fence_is_bounded_by_the_fence() {
    let tail = "trailing prose\n".repeat(400);
    let text = format!("intro\n```\nlet x = 1;\nlet y = 2;\n```\n{tail}");
    let caret = text.find("let y")
                    .expect("the fixture has a second line of code");

    let (text, edit) = apply(&text, caret..caret, "z");
    let dirty = dirty_range(&text, &edit);

    assert!(dirty.len() < 60,
            "the fenced block is the bound, but {} bytes were dirtied",
            dirty.len());
    assert!(dirty.end < text.len(),
            "the prose after the block cannot have changed");
}

#[test]
fn editing_a_fence_delimiter_rescans_everything() {
    let text = "```\ncode\n```\nafter";
    let (text, edit) = apply(text, 3..3, "`");
    assert_eq!(dirty_range(&text, &edit),
               0..text.len(),
               "a delimiter that changed length can have opened or closed the block, and every \
                line after it reads differently");
}

#[test]
fn joining_a_line_onto_a_fence_agrees() {
    agree("a\n```\nb\n```\nc", &[(1..2, "")]);
}

#[test]
fn deleting_the_closing_fence_below_a_block_agrees() {
    agree("```\na\n```\nb\n```\n*c*", &[(6..9, "")]);
}

#[test]
fn typing_into_a_block_open_to_the_end_agrees() {
    agree("```\n~~~\n", &[(8..8, "x")]);
}
