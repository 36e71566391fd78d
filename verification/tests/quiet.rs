use fsearch::quiet::Quiet;

#[test]
fn library_and_hidden_dirs_are_quiet() {
    let q = Quiet::default();
    assert!(q.is_quiet("/Users/j/Library/Biome/compute/sessions/x"));
    assert!(q.is_quiet("/Users/j/Library/Application Support/Firefox/y.sqlite"));
    assert!(q.is_quiet("/Users/j/.cisco/vpn/log/UIHistory.txt"));
    assert!(q.is_quiet("/Users/j/.zshrc"));
    assert!(!q.is_quiet("/Users/j/Documents/taxes/2026.pdf"));
    assert!(!q.is_quiet("/Applications/Safari.app"));
}

#[test]
fn custom_patterns_replace_defaults() {
    let q = Quiet::new(vec!["/node_modules/".into()]);
    assert!(q.is_quiet("/Users/j/p/node_modules/x.js"));
    assert!(!q.is_quiet("/Users/j/Library/whatever"));
    assert!(Quiet::new(Vec::new()).is_empty());
}
