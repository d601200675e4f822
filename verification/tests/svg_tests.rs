use jieplag::gen_svg;
use jieplag::gen_svg_with_index;
use jieplag::generate_uuid;

#[test]
fn test_gen_svg_with_index() {
    let markup = gen_svg_with_index("#ff0000", 50, Some(3));
    let expected = "<svg width=\"60\" height=\"18\">\n    <rect width=\"60\" height=\"18\" style=\"fill:rgba(0,0,0,0);stroke-width:4;stroke:#ff0000\"></rect>\n    <rect width=\"30\" height=\"18\" style=\"fill:#ff0000;\"></rect>\n    <text x=\"50%\" y=\"50%\" dominant-baseline=\"middle\" text-anchor=\"middle\" fill=\"#ff0000\" font-size=\"12\">(3)</text>\n</svg>";
    assert_eq!(markup, expected);
}

#[test]
fn test_gen_svg_without_index() {
    let markup = gen_svg("blue", 100);
    assert!(markup.contains("<rect width=\"60\" height=\"18\""));
    assert!(markup.contains("<rect width=\"60\" height=\"18\" style=\"fill:blue;\""));
    assert!(markup.contains(">(") == false);
    assert!(markup.contains("font-size=\"12\"></text>"));
}

#[test]
fn test_generate_uuid_format() {
    let token = generate_uuid();
    assert_eq!(token.len(), 32);
    assert!(token.chars().all(|c| c.is_ascii_hexdigit() && !c.is_ascii_uppercase()));
    // two draws almost surely differ; equality would mean the value is fixed
    let other = generate_uuid();
    assert_ne!(token, other);
}
