//! Expanding composite types.

use msca::derive::field::Field;
use msca::derive::read::{expand, Body, Input, Refusal};

fn field(ident: &str, ty: &str) -> Field {
    Field { ident: String::from(ident), ty: String::from(ty) }
}

fn input(vis: &str, ident: &str, fields: &[(&str, &str)]) -> Input {
    Input {
        vis: String::from(vis),
        ident: String::from(ident),
        body: Body::Named(fields.iter().map(|f| field(f.0, f.1)).collect()),
    }
}

/// `struct Row { a: u32, b: f64 }`
fn row() -> Input {
    input("", "Row", &[("a", "u32"), ("b", "f64")])
}

fn code() -> String {
    expand(row()).expect("Expansion failed")
}

/// Whether `code` holds `part`, whatever the spaces between tokens.
fn has(code: &str, part: &str) -> bool {
    code.replace(' ', "").contains(&part.replace(' ', ""))
}

#[test]
fn expand_emits_reader_and_impls() {
    let code = code();
    assert!(has(&code, "struct RowReader<'a, S>"));
    assert!(has(&code, "::msca::Composite<'a, S> for Row"));
    assert!(has(&code, "Iterator for RowReader<'a, N>"));
    assert!(has(&code, "::msca::Unfiltered<'a> for Row"));
    assert!(has(&code, "impl ::msca::Read for Row"));
}

#[test]
fn expand_emits_one_composite() {
    let code = code();
    assert_eq!(code.matches("Composite < 'a").count(), 2);
    assert!(has(&code, "<Row as ::msca::Composite<'a, ::msca::Conjunct<"));
}

#[test]
fn expand_acquires_streams_fallibly() {
    let code = code();
    assert!(has(&code, "query.column::<u32>(\"a\")?"));
    assert!(has(&code, "::msca::query::Build::build(a,"));
}

#[test]
fn expand_pulls_every_field_before_inspecting_any() {
    let code = code().replace(' ', "");
    let pull = code.rfind("Iterator::next(&mutself.b)").expect("no second pull");
    let inspect = code.find("let(keep_a,a)=matcha").expect("no single-match inspection");
    assert!(pull < inspect);
    assert_eq!(code.matches("=matcha{").count(), 1);
}

#[test]
fn expand_selects_before_building() {
    let code = code().replace(' ', "");
    let select = code.find("::msca::query::Select::select").expect("no selection");
    let build = code.find("::msca::query::Build::build").expect("no build");
    assert!(select < build);
    assert!(has(&code, "let mut mask = query.mask()"));
}

#[test]
fn expand_single_field_skips_combination() {
    let code = expand(input("", "One", &[("a", "u32")])).expect("Expansion failed");
    assert!(has(&code, "::msca::Composite<'a, S> for One"));
    assert!(!has(&code, "::msca::Join::and"));
    assert!(!has(&code, "::msca::Combine"));
}

#[test]
fn expand_reader_inherits_visibility() {
    let code = expand(input("pub", "Row", &[("a", "u32"), ("b", "f64")])).expect("Expansion failed");
    assert!(has(&code, "pub struct RowReader<'a, S>"));
}

#[test]
fn expand_boxes_each_reader_field() {
    let code = code();
    let item = "Item = ::msca::Outcome<u32>";
    let field = format!("a: ::std::boxed::Box<dyn ::core::iter::Iterator<{item}> + 'a>");
    assert!(has(&code, &field));
}

#[test]
fn expand_output_parses() {
    let inputs = [
        input("", "One", &[("a", "u32")]),
        row(),
        input("", "Wide", &[("a", "u32"), ("b", "f64"), ("c", "u16")]),
    ];
    for input in inputs {
        let expanded = expand(input).expect("Expansion failed");
        syn::parse_str::<syn::File>(&expanded).expect("Generated code does not parse");
    }
}

#[test]
fn expand_rejects_enum() {
    let input = Input { vis: String::new(), ident: String::from("Level"), body: Body::Other };
    assert_eq!(expand(input).expect_err("Unsupported input accepted"), Refusal::Unsupported);
}

#[test]
fn expand_rejects_unnamed_and_missing_fields() {
    let tuple = Input { vis: String::new(), ident: String::from("T"), body: Body::Tuple };
    let unit = Input { vis: String::new(), ident: String::from("U"), body: Body::Unit };
    assert_eq!(expand(tuple), Err(Refusal::Unnamed));
    assert_eq!(expand(unit), Err(Refusal::Empty));
    assert_eq!(expand(input("", "E", &[])), Err(Refusal::Empty));
}

#[test]
fn expand_does_not_depend_on_declaration_order() {
    let one = expand(input("", "Row", &[("a", "u32"), ("b", "f64"), ("c", "u8")]));
    let two = expand(input("", "Row", &[("c", "u8"), ("a", "u32"), ("b", "f64")]));
    assert_eq!(one, two);
}

#[test]
fn expand_nests_the_tree_to_the_left() {
    let code = expand(input("", "Wide", &[("c", "u16"), ("b", "f64"), ("a", "u32")]));
    let code = code.expect("Expansion failed").replace(' ', "");
    let src = |ty: &str| format!("::msca::query::Src<'a,{ty}>");
    let tree = format!(
        "::msca::Conjunct<::msca::Conjunct<{},{}>,{}>",
        src("u32"),
        src("f64"),
        src("u16")
    );
    assert!(code.contains(&tree));
    assert!(code.contains("letcombined=::msca::Join::and(::msca::Join::and(a,b)?,c)?;"));
    assert!(code.contains("<Nas::msca::Combine>::combine(<N1as::msca::Combine>::combine(keep_a,keep_b),keep_c)"));
    assert!(code.contains("N:::msca::Combine<L0=N1>,N1:::msca::Combine,"));
    assert!(code.contains("let(node,c)=::msca::Combine::unpack(node);let(a,b)=::msca::Combine::unpack(node);"));
}

#[test]
fn expand_unraws_derived_names() {
    let code = expand(input("", "r#type", &[("r#match", "u32")])).expect("Expansion failed");
    assert!(has(&code, "struct typeReader<'a, S>"));
    assert!(has(&code, "let (keep_match, r#match) = match r#match"));
    assert!(has(&code, "query.column::<u32>(\"match\")?"));
}

#[test]
fn expand_returns_any_error_before_inspecting_any() {
    let fields = [("a", "u32"), ("b", "f64"), ("c", "u8")];
    let code = expand(input("", "Row", &fields)).expect("Expansion failed").replace(' ', "");
    let test = |ident: &str| format!("iflet::msca::Outcome::Error(e)={ident}{{return");
    let pull = code.rfind("Iterator::next(&mutself.c)").expect("no last pull");
    let inspect = code.find("let(keep_a,a)=matcha").expect("no inspection");
    for ident in ["a", "b", "c"] {
        let at = code.find(&test(ident)).expect("an error is not tested");
        assert!(pull < at && at < inspect);
        assert_eq!(code.matches(&test(ident)).count(), 1);
    }
}

#[test]
fn expand_orders_raw_fields_by_their_name() {
    let code = expand(input("", "Row", &[("s", "u32"), ("r#type", "u8"), ("a", "u16")]));
    let code = code.expect("Expansion failed").replace(' ', "");
    assert!(code.contains("letcombined=::msca::Join::and(::msca::Join::and(a,s)?,r#type)?;"));
}
