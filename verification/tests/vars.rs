use friggen::parser::parse_friggenfile;
use friggen::vars::{
    build_var_map, extract_commands, split_env_assignment, trim_command_output, VarTable,
};

fn b(s: &str) -> Vec<u8> {
    s.as_bytes().to_vec()
}

#[test]
fn test_trim_strips_all_trailing_newlines() {
    assert_eq!(trim_command_output(b("a\nb\n")), b("a\nb"));
    assert_eq!(trim_command_output(b("a\nb\n\r\n\r")), b("a\nb"));
    assert_eq!(trim_command_output(b("plain")), b("plain"));
    assert_eq!(trim_command_output(b("\n\n")), b(""));
    assert_eq!(trim_command_output(b("")), b(""));
}

#[test]
fn test_extract_commands_in_document_order() {
    let ast = parse_friggenfile(&b("x = 1\ny = $(date)\nz = $(id -u)\n")).unwrap();
    let cmds = extract_commands(&ast);
    assert_eq!(cmds, vec![b("date"), b("id -u")]);
}

#[test]
fn test_literal_values_stored_verbatim() {
    let ast = parse_friggenfile(&b("x = plain words\ny = 'quoted'\n")).unwrap();
    let outputs: Vec<Vec<u8>> = vec![];
    let mut vars = VarTable::new();
    build_var_map(&ast, &outputs, &mut vars);
    assert_eq!(vars.get(&b("x")), Some(&b("plain words")));
    assert_eq!(vars.get(&b("y")), Some(&b("quoted")));
    assert_eq!(vars.get(&b("absent")), None);
}

#[test]
fn test_command_substitution_output_trimmed() {
    // The subshell's captured output loses its trailing newlines only;
    // the inner newline stays.
    let ast = parse_friggenfile(&b("x = $(printf 'a\\nb\\n')\n")).unwrap();
    let cmds = extract_commands(&ast);
    assert_eq!(cmds, vec![b("printf 'a\\nb\\n'")]);
    let outputs: Vec<Vec<u8>> = vec![b("a\nb\n")];
    let mut vars = VarTable::new();
    build_var_map(&ast, &outputs, &mut vars);
    assert_eq!(vars.get(&b("x")), Some(&b("a\nb")));
}

#[test]
fn test_later_assignment_overwrites_earlier() {
    let ast = parse_friggenfile(&b("x = first\nx = second\n")).unwrap();
    let outputs: Vec<Vec<u8>> = vec![];
    let mut vars = VarTable::new();
    build_var_map(&ast, &outputs, &mut vars);
    assert_eq!(vars.get(&b("x")), Some(&b("second")));
    assert_eq!(vars.entries().len(), 2);
}

#[test]
fn test_split_env_assignment() {
    assert_eq!(split_env_assignment(&b("K=V")), (b("K"), b("V")));
    assert_eq!(split_env_assignment(&b("K=a=b")), (b("K"), b("a=b")));
    assert_eq!(split_env_assignment(&b("BARE")), (b("BARE"), b("")));
    assert_eq!(split_env_assignment(&b("K=")), (b("K"), b("")));
}
