use toml_const::ident::{
    split_pascal_case, to_module_ident, to_type_ident, to_variable_ident,
};

#[test]
fn custom_struct_test_split_pascal_case() {
    let inter = "PascalCase";
    let inter = split_pascal_case(inter);
    println!("inter: {inter}");
    assert_eq!(inter, "Pascal_Case");

    let inter = "Pascal";
    let inter = split_pascal_case(inter);
    println!("inter: {inter}");
    assert_eq!(inter, "Pascal");
}

#[test]
fn instantiate_test_split_pascal_case() {
    let inter = "PascalCase";
    let inter = split_pascal_case(inter);
    println!("inter: {inter}");
    assert_eq!(inter, "Pascal_Case");

    let inter = "Pascal";
    let inter = split_pascal_case(inter);
    println!("inter: {inter}");
    assert_eq!(inter, "Pascal");
}

#[test]
fn split_pascal_case_of_edge_cases() {
    assert_eq!(split_pascal_case(""), "");
    assert_eq!(split_pascal_case("lower"), "lower");
    assert_eq!(split_pascal_case("ABC"), "A_B_C");
    assert_eq!(split_pascal_case("aB"), "a_B");
}

#[test]
fn variable_idents() {
    assert_eq!(to_variable_ident("package"), "PACKAGE");
    assert_eq!(to_variable_ident("proc-macro"), "PROC_MACRO");
    assert_eq!(to_variable_ident("a.b c/d"), "A_B_C_D");
    assert_eq!(to_variable_ident("ROOT_TABLE"), "ROOT_TABLE");
    assert_eq!(to_variable_ident("2fast"), "_2FAST");
    assert_eq!(to_variable_ident("straße"), "STRASSE");
    assert_eq!(to_variable_ident(""), "");
}

#[test]
fn module_idents() {
    assert_eq!(to_module_ident("package"), "package");
    assert_eq!(to_module_ident("Proc-Macro"), "proc_macro");
    assert_eq!(to_module_ident("ROOT_TABLE"), "root_table");
    assert_eq!(to_module_ident("2fast"), "_2fast");
}

#[test]
fn type_idents() {
    assert_eq!(to_type_ident("package"), "Package");
    assert_eq!(to_type_ident("proc-macro"), "ProcMacro");
    assert_eq!(to_type_ident("ROOT_TABLE"), "RootTable");
    assert_eq!(to_type_ident("PascalCase"), "PascalCase");
    assert_eq!(to_type_ident("camelCase"), "CamelCase");
    assert_eq!(to_type_ident("ABC"), "ABC");
    assert_eq!(to_type_ident("a__b"), "AB");
    assert_eq!(to_type_ident("2fast"), "_2fast");
    assert_eq!(to_type_ident(""), "");
}

#[test]
fn test_split_pascal_case() {
    let inter = "PascalCase";
    let inter = split_pascal_case(inter);
    println!("inter: {inter}");
    assert_eq!(inter, "Pascal_Case");

    let inter = "Pascal";
    let inter = split_pascal_case(inter);
    println!("inter: {inter}");
    assert_eq!(inter, "Pascal");
}
