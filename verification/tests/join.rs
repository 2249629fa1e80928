use pathdiv::PathDiv;

#[test]
fn div_linux() {
    let mut path = PathDiv::from("/etc");
    path = path.div("init.d");
    assert_eq!("/etc/init.d", path.to_str().unwrap())
}

#[test]
fn div_assign_linux() {
    let mut path = PathDiv::from("/etc");
    path.div_assign("init.d");
    assert_eq!("/etc/init.d", path.to_str().unwrap())
}
