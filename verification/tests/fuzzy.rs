use defbuild::fuzzy::Fuzzy;

#[test]
fn basic() {
    let mut f = Fuzzy::new();

    f.add("rust");
    f.add("rst");
    f.add("cst");
    f.add("ooo");
    f.add("bat");

    let r = f.find("rust");

    assert_eq!(r[0], (0, "rust".to_string()));

    assert_eq!(r[1], (1, "rst".to_string()));

    assert_eq!(r[4], (4, "ooo".to_string()));
}

#[test]
fn add_deduplicates() {
    let mut f = Fuzzy::new();
    f.add("abc");
    f.add("abc");
    let r = f.find("abc");
    assert_eq!(r.len(), 1);
    assert_eq!(r[0], (0, "abc".to_string()));
}
