use rs_prompt::venv::basename;

#[test]
fn extracts_basename() {
    assert_eq!("myenv", basename("/opt/venvs/myenv"));
    assert_eq!("myenv", basename("/opt/venvs/myenv/"));
    assert_eq!("myenv", basename("myenv"));
}

#[test]
fn basename_edge_cases() {
    assert_eq!("", basename(""));
    assert_eq!("", basename("/"));
    assert_eq!("", basename("///"));
    assert_eq!("env", basename("env///"));
    assert_eq!("é", basename("/x/é//"));
}
