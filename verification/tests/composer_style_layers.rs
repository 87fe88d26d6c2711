use knot::composer_scan::Construct;
use knot::composer_scan::Span;
use knot::composer_style::decorations;
use knot::composer_style::edit_between;
use knot::composer_style::treatment;
use knot::composer_style::PaletteColor;
use knot::composer_style::Treatment;
use knot::composer_style::Layer;

const ALL: [Construct; 11] = [Construct::Attachment,
                              Construct::SlashToken,
                              Construct::Mention,
                              Construct::Emphasis,
                              Construct::Strong,
                              Construct::InlineCode,
                              Construct::CodeFence,
                              Construct::Heading,
                              Construct::ListMarker,
                              Construct::BlockQuote,
                              Construct::Link];

#[test]
fn each_construct_lands_in_the_layer_its_precedence_needs() {
    assert_eq!(Layer::of(Construct::Attachment), Layer::Attachment);
    assert_eq!(Layer::of(Construct::SlashToken), Layer::Token);
    assert_eq!(Layer::of(Construct::Mention), Layer::Token);
    for construct in ALL {
        let markdown = !matches!(construct,
                                 Construct::Attachment | Construct::SlashToken | Construct::Mention);
        if markdown {
            assert_eq!(Layer::of(construct), Layer::Markdown, "{construct:?}");
        }
    }
}

#[test]
fn the_layers_are_ordered_chip_first_and_markdown_last() {
    assert_eq!(Layer::ALL, [Layer::Attachment, Layer::Token, Layer::Markdown]);
}

#[test]
fn an_inserted_character_is_recovered_as_a_one_byte_edit() {
    let edit = edit_between("ab", "axb");
    assert_eq!(edit.replaced, 1..1);
    assert_eq!(edit.inserted, 1);
}

#[test]
fn a_deletion_is_recovered_as_a_replacement_by_nothing() {
    let edit = edit_between("axb", "ab");
    assert_eq!(edit.replaced, 1..2);
    assert_eq!(edit.inserted, 0);
}

#[test]
fn a_replacement_is_recovered_as_both() {
    let edit = edit_between("keep OLD tail", "keep NEW tail");
    assert_eq!(edit.replaced, 5..8);
    assert_eq!(edit.inserted, 3);
}

#[test]
fn an_unchanged_buffer_is_an_empty_edit() {
    let edit = edit_between("same", "same");
    assert_eq!(edit.inserted, 0);
    assert!(edit.replaced.is_empty());
}

#[test]
fn an_edit_beside_multibyte_text_stays_on_character_boundaries() {
    for (old, new) in [("héllo", "héllo!"), ("héllo", "hllo"), ("🙂🙂", "🙂x🙂")] {
        let edit = edit_between(old, new);
        assert!(old.is_char_boundary(edit.replaced.start) && old.is_char_boundary(edit.replaced.end),
                "{old:?} -> {new:?} produced {:?}, which splits a character",
                edit.replaced);
        assert!(new.is_char_boundary(edit.replaced.start));
    }
}

#[test]
fn the_recovered_edit_reproduces_the_new_buffer() {
    let cases = [("", "hello"),
                 ("hello", ""),
                 ("a *word", "a *word*"),
                 ("```\ncode\n```", "```\ncode\n"),
                 ("one\ntwo\nthree", "one\n2\nthree"),
                 ("héllo wörld", "héllo there wörld")];
    for (old, new) in cases {
        let edit = edit_between(old, new);
        let mut rebuilt = String::new();
        rebuilt.push_str(&old[..edit.replaced.start]);
        rebuilt.push_str(&new[edit.replaced.start..edit.replaced.start + edit.inserted]);
        rebuilt.push_str(&old[edit.replaced.end..]);
        assert_eq!(rebuilt, new, "{old:?} -> {new:?} was recovered as {edit:?}");
    }
}

#[test]
fn a_change_inside_a_multibyte_character_widens_to_the_whole_character() {
    // "é" is C3 A9 and "è" is C3 A8: they share a first byte, which is no
    // character boundary to stop at.
    let edit = edit_between("é", "è");
    assert_eq!(edit.replaced, 0..2);
    assert_eq!(edit.inserted, 2);
}

#[test]
fn every_treatment_carries_more_than_a_hue() {
    for construct in ALL {
        let style = treatment(construct);
        let non_hue = style.weight.is_some() || style.italic || style.background.is_some() || style.underline;
        assert!(non_hue,
                "{construct:?} is distinguished by colour alone, so it disappears for a reader \
                 who cannot separate its hue from prose");
    }
}

#[test]
fn no_treatment_is_empty() {
    let prose = Treatment { color: None, background: None, weight: None, italic: false, underline: false };
    for construct in ALL {
        assert_ne!(treatment(construct), prose, "{construct:?} would be drawn exactly like prose");
    }
}

#[test]
fn treatments_are_distinct_except_for_the_two_code_forms() {
    for (index, first) in ALL.iter().enumerate() {
        for second in &ALL[index + 1..] {
            let code_pair = matches!((first, second), (Construct::InlineCode, Construct::CodeFence));
            if code_pair {
                assert_eq!(treatment(*first),
                           treatment(*second),
                           "a fenced block and a code span are one code treatment");
                continue;
            }
            assert_ne!(treatment(*first), treatment(*second), "{first:?} and {second:?} are drawn identically");
        }
    }
}

#[test]
fn a_chip_reads_as_one_object_and_a_link_is_underlined() {
    assert_eq!(treatment(Construct::Attachment).background, Some(PaletteColor::Secondary));
    assert!(treatment(Construct::Link).underline);
    assert_eq!(treatment(Construct::Link).color, Some(PaletteColor::Primary));
}

#[test]
fn each_layer_paints_only_its_own_spans_in_order() {
    let spans = vec![Span { range: 0..4, construct: Construct::SlashToken },
                     Span { range: 5..9, construct: Construct::Strong },
                     Span { range: 10..15, construct: Construct::Attachment },
                     Span { range: 16..20, construct: Construct::Mention }];

    let tokens = decorations(&spans, Layer::Token);
    assert_eq!(tokens.iter().map(|d| d.range.clone()).collect::<Vec<_>>(), vec![0..4, 16..20]);
    assert_eq!(tokens[1].treatment, treatment(Construct::Mention));

    let chips = decorations(&spans, Layer::Attachment);
    assert_eq!(chips.len(), 1);
    assert_eq!(chips[0].range, 10..15);

    let markdown = decorations(&spans, Layer::Markdown);
    assert_eq!(markdown.len(), 1);
    assert!(decorations(&[], Layer::Markdown).is_empty());
}
