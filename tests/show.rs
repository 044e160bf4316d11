use homestar::show::Output;

#[test]
fn output_renders_without_trailing_whitespace() {
    let o = Output::new("table\n  \n".to_string());
    assert_eq!(o.inner(), "table\n  \n");
    assert_eq!(o.render(), "table");
}
