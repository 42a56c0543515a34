use sani::formatting::Format;
use sani::markdown::{DocumentElement, Paragraph};
use sani::{parse, render};

fn all_formats() -> Vec<Format> {
    let mut formats = Vec::new();
    for bits in 0..8u8 {
        let mut f = Format::new();
        if bits & 1 != 0 {
            f = f.set_bold();
        }
        if bits & 2 != 0 {
            f = f.set_italic();
        }
        if bits & 4 != 0 {
            f = f.set_strikethrough();
        }
        formats.push(f);
    }
    formats
}

fn runs(paragraph: &Paragraph) -> Vec<(String, Format)> {
    paragraph.render_slices.clone()
}

#[test]
fn change_to_same_format_is_empty_for_every_format() {
    for f in all_formats() {
        assert_eq!(String::new(), f.get_codes_for_format_change(f));
    }
}

#[test]
fn change_and_change_back_are_exact() {
    let a = Format::new().set_bold().set_italic();
    let b = Format::new().set_italic().set_strikethrough();
    assert_eq!("\x1b[22m\x1b[9m", b.get_codes_for_format_change(a));
    assert_eq!("\x1b[29m\x1b[1m", a.get_codes_for_format_change(b));
}

#[test]
fn change_closes_before_opening_in_canonical_order() {
    let previous = Format::new().set_bold().set_strikethrough();
    let current = Format::new().set_italic();
    assert_eq!(
        "\x1b[22m\x1b[29m\x1b[3m",
        current.get_codes_for_format_change(previous)
    );
}

#[test]
fn all_start_and_end_codes_in_order() {
    let all = Format::new().set_strikethrough().set_italic().set_bold();
    assert_eq!("\x1b[1m\x1b[3m\x1b[9m", all.get_start_codes());
    assert_eq!("\x1b[22m\x1b[23m\x1b[29m", all.get_end_codes());
}

#[test]
fn toggling_twice_restores_format() {
    let mut f = Format::new().set_italic();
    f.toggle_bold();
    assert_eq!(Format::new().set_italic().set_bold(), f);
    f.toggle_bold();
    f.toggle_italic();
    assert_eq!(Format::new(), f);
}

#[test]
fn render_closes_style_left_open() {
    let paragraph = Paragraph::new("**lorem *ipsum");
    assert_eq!("\x1b[1mlorem \x1b[3mipsum\x1b[22m\x1b[23m", paragraph.render());
}

#[test]
fn render_of_no_runs_is_empty() {
    let paragraph = Paragraph::new("");
    assert!(paragraph.render_slices.is_empty());
    assert_eq!("", paragraph.render());
}

#[test]
fn adjacent_delimiters_leave_no_empty_runs() {
    let paragraph = Paragraph::new("****~~~~**a****b*");
    for (text, _) in &paragraph.render_slices {
        assert!(!text.is_empty());
    }
    let bold = Format::new().set_bold();
    assert_eq!(
        vec![("a".to_owned(), bold), ("b".to_owned(), bold)],
        runs(&paragraph)
    );
}

#[test]
fn scenario_bold_then_plain() {
    let paragraph = Paragraph::new("**lorem** ipsum");
    assert_eq!(
        vec![
            ("lorem".to_owned(), Format::new().set_bold()),
            (" ipsum".to_owned(), Format::new())
        ],
        runs(&paragraph)
    );
    assert_eq!("\x1b[1mlorem\x1b[22m ipsum", paragraph.render());
}

#[test]
fn scenario_newline_folding() {
    let paragraph = Paragraph::new("lorem\nipsum");
    assert_eq!("lorem ipsum", paragraph.render());
}

#[test]
fn scenario_nested_italic_inside_bold() {
    let paragraph = Paragraph::new("**lorem *ipsum* dolor**");
    assert_eq!(
        vec![
            ("lorem ".to_owned(), Format::new().set_bold()),
            ("ipsum".to_owned(), Format::new().set_bold().set_italic()),
            (" dolor".to_owned(), Format::new().set_bold())
        ],
        runs(&paragraph)
    );
    assert_eq!(
        "\x1b[1mlorem \x1b[3mipsum\x1b[23m dolor\x1b[22m",
        paragraph.render()
    );
}

#[test]
fn scenario_lone_tildes_are_text() {
    let text = "~lorem~ ipsum ~ dolor ~sit amet~";
    let paragraph = Paragraph::new(text);
    assert_eq!(vec![(text.to_owned(), Format::new())], runs(&paragraph));
}

#[test]
fn overlapping_styles_are_independent_flags() {
    let paragraph = Paragraph::new("**a *b** c*");
    assert_eq!(
        vec![
            ("a ".to_owned(), Format::new().set_bold()),
            ("b".to_owned(), Format::new().set_bold().set_italic()),
            (" c".to_owned(), Format::new().set_italic())
        ],
        runs(&paragraph)
    );
}

#[test]
fn escaped_delimiter_is_literal() {
    let paragraph = Paragraph::new("\\*a\\~~b");
    assert_eq!(
        vec![("*a".to_owned(), Format::new()), ("~~b".to_owned(), Format::new())],
        runs(&paragraph)
    );
}

#[test]
fn lone_tilde_does_not_hide_next_delimiter() {
    let paragraph = Paragraph::new("~*a*");
    assert_eq!(
        vec![
            ("~".to_owned(), Format::new()),
            ("a".to_owned(), Format::new().set_italic())
        ],
        runs(&paragraph)
    );
}

#[test]
fn single_asterisk_does_not_hide_next_newline() {
    let paragraph = Paragraph::new("*\nb");
    assert_eq!(
        vec![
            (" ".to_owned(), Format::new().set_italic()),
            ("b".to_owned(), Format::new().set_italic())
        ],
        runs(&paragraph)
    );
}

#[test]
fn triple_asterisk_is_bold_and_italic() {
    let paragraph = Paragraph::new("***a***");
    assert_eq!(
        vec![("a".to_owned(), Format::new().set_bold().set_italic())],
        runs(&paragraph)
    );
}

#[test]
fn unbalanced_strikethrough_stays_on() {
    let paragraph = Paragraph::new("a ~~b");
    assert_eq!(
        vec![
            ("a ".to_owned(), Format::new()),
            ("b".to_owned(), Format::new().set_strikethrough())
        ],
        runs(&paragraph)
    );
    assert_eq!("a \x1b[9mb\x1b[29m", paragraph.render());
}

#[test]
fn multibyte_characters_are_kept() {
    let paragraph = Paragraph::new("é**ü**ß");
    assert_eq!(
        vec![
            ("é".to_owned(), Format::new()),
            ("ü".to_owned(), Format::new().set_bold()),
            ("ß".to_owned(), Format::new())
        ],
        runs(&paragraph)
    );
}

#[test]
fn parse_splits_on_blank_lines() {
    let elements = parse("**a**\n\nb\nc");
    assert_eq!(2, elements.len());
    assert_eq!(
        vec![("a".to_owned(), Format::new().set_bold())],
        runs(&elements[0])
    );
    assert_eq!(
        vec![("b ".to_owned(), Format::new()), ("c".to_owned(), Format::new())],
        runs(&elements[1])
    );
}

#[test]
fn parse_of_three_newlines() {
    let elements = parse("\n\n\n");
    assert_eq!(2, elements.len());
    assert!(elements[0].render_slices.is_empty());
    assert_eq!(vec![(" ".to_owned(), Format::new())], runs(&elements[1]));
}

#[test]
fn parse_of_empty_text_is_one_empty_paragraph() {
    let elements = parse("");
    assert_eq!(1, elements.len());
    assert_eq!("\n\n", render(elements));
}

#[test]
fn render_document() {
    let elements = parse("**lorem** ipsum\n\n~~dolor");
    assert_eq!(
        "\x1b[1mlorem\x1b[22m ipsum\n\n\x1b[9mdolor\x1b[29m\n\n",
        render(elements)
    );
}
