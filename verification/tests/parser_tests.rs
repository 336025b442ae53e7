use order_split::keys::parse_order_and_operation;
use order_split::names::{sanitize_sheet_name, make_unique_sheet_name, NameRegistry};

#[test]
fn parse_well_formed_key() {
    let r = parse_order_and_operation("123/45");
    assert_eq!(r, Some(("123".to_string(), "45".to_string())));
}

#[test]
fn parse_trims_both_sides() {
    let r = parse_order_and_operation("  123 / 45 ");
    assert_eq!(r, Some(("123".to_string(), "45".to_string())));
}

#[test]
fn parse_rejects_missing_separator() {
    assert_eq!(parse_order_and_operation("123"), None);
}

#[test]
fn parse_rejects_three_parts() {
    assert_eq!(parse_order_and_operation("123/45/6"), None);
}

#[test]
fn parse_rejects_empty_order() {
    assert_eq!(parse_order_and_operation("/45"), None);
}

#[test]
fn parse_rejects_empty_operation() {
    assert_eq!(parse_order_and_operation("123/"), None);
}

#[test]
fn parse_rejects_blank_parts() {
    assert_eq!(parse_order_and_operation("  / "), None);
}

#[test]
fn sanitize_empty_is_fallback() {
    assert_eq!(sanitize_sheet_name(""), "NO_ORDER");
}

#[test]
fn sanitize_blank_is_fallback() {
    assert_eq!(sanitize_sheet_name("  "), "NO_ORDER");
}

#[test]
fn sanitize_replaces_invalid_characters() {
    assert_eq!(sanitize_sheet_name("A/B:C"), "A_B_C");
}

#[test]
fn sanitize_strips_outer_quotes() {
    assert_eq!(sanitize_sheet_name("'Quoted'"), "Quoted");
}

#[test]
fn sanitize_replaces_control_characters() {
    assert_eq!(sanitize_sheet_name("a\tb"), "a_b");
}

#[test]
fn sanitize_truncates_to_31_characters() {
    let long = "0123456789012345678901234567890123456789";
    assert_eq!(long.chars().count(), 40);
    let s = sanitize_sheet_name(long);
    assert_eq!(s.chars().count(), 31);
    assert_eq!(s, "0123456789012345678901234567890");
}

#[test]
fn sanitize_truncates_by_characters_not_bytes() {
    let long: String = std::iter::repeat('\u{e9}').take(40).collect();
    let s = sanitize_sheet_name(&long);
    assert_eq!(s.chars().count(), 31);
    assert!(s.chars().all(|c| c == '\u{e9}'));
}

#[test]
fn sanitize_all_invalid_is_fallback() {
    assert_eq!(sanitize_sheet_name("''"), "NO_ORDER");
}

#[test]
fn unique_name_first_occurrence_is_base() {
    let mut reg = NameRegistry::new();
    assert_eq!(make_unique_sheet_name("base", &mut reg), "base");
}

#[test]
fn unique_name_second_occurrence_gets_suffix() {
    let mut reg = NameRegistry::new();
    assert_eq!(make_unique_sheet_name("base", &mut reg), "base");
    assert_eq!(make_unique_sheet_name("base", &mut reg), "base_2");
    assert_eq!(make_unique_sheet_name("base", &mut reg), "base_3");
}

#[test]
fn unique_name_truncates_base_not_suffix() {
    let base = "AAAAAAAAAAAAAAAAAAAAAAAAAAAAAAA";
    assert_eq!(base.chars().count(), 31);
    let mut reg = NameRegistry::new();
    assert_eq!(make_unique_sheet_name(base, &mut reg), base);
    let second = make_unique_sheet_name(base, &mut reg);
    assert_eq!(second.chars().count(), 31);
    assert_eq!(second, "AAAAAAAAAAAAAAAAAAAAAAAAAAAAA_2");
}

#[test]
fn unique_name_different_bases_do_not_collide() {
    let mut reg = NameRegistry::new();
    let a = make_unique_sheet_name("alpha", &mut reg);
    let b = make_unique_sheet_name("beta", &mut reg);
    assert_ne!(a, b);
}
