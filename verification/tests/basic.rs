use gamesheet_core::sheet::Sheet;

fn example_sheet() -> Sheet {
    let prelude = "fn seven_times(x) { x * 7.0 }".to_string();
    let entries = vec![
        ("constant".to_string(), "7.0".to_string()),
        ("function".to_string(), "g(\"constant\") * 2.0".to_string()),
        ("prelude".to_string(), "seven_times(g(\"constant\"))".to_string()),
    ];
    Sheet::parse(prelude, entries).expect("parse example sheet")
}

#[test]
fn read_from_sheet() {
    // Parse the sheet
    let mut sheet = example_sheet();

    // Print the sheet's contents
    println!("{sheet:#?}");

    // Test the contents of the sheet from the start
    let constant = sheet.eval("constant").expect("get constant");
    let function = sheet.eval("function").expect("get function example");
    let prelude_call = sheet.eval("prelude").expect("get prelude example");
    assert_eq!(constant.as_float().unwrap(), 7.0);
    assert_eq!(function.as_float().unwrap(), 14.0);
    assert_eq!(prelude_call.as_float().unwrap(), 49.0);

    // Write new contents for the constant field
    sheet
        .insert_entry("constant", "8.0".to_string())
        .expect("new constant");

    // Test the new contents of the sheet
    let constant = sheet.eval("constant").expect("get constant");
    let function = sheet.eval("function").expect("get function example");
    let prelude_call = sheet.eval("prelude").expect("get prelude example");
    assert_eq!(constant.as_float().unwrap(), 8.0);
    assert_eq!(function.as_float().unwrap(), 16.0);
    assert_eq!(prelude_call.as_float().unwrap(), 56.0);
}
