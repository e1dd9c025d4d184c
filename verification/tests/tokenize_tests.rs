use histmine::tokenize::{tokenize, Quote};

#[test]
fn plain_words() {
    let t = tokenize("git push origin main").unwrap();
    assert_eq!(t.len(), 4);
    assert_eq!(t[3].raw, "main");
}

#[test]
fn quoted_blob_is_one_token() {
    let t = tokenize("ssh prod-3 \"journalctl -u api --since '2 hours ago'\"").unwrap();
    assert_eq!(t.len(), 3);
    assert_eq!(t[2].quote, Quote::Double);
    assert_eq!(t[2].value, "journalctl -u api --since '2 hours ago'");
}

#[test]
fn operators_split() {
    let t = tokenize("docker tag a && docker push a").unwrap();
    assert_eq!(t.len(), 7);
    assert!(t[3].op);
    assert_eq!(t[3].raw, "&&");
}

#[test]
fn unterminated_quote_rejected() {
    assert!(tokenize("echo \"oops").is_none());
}

#[test]
fn redirect_adjacency_tracked() {
    let t = tokenize("cmd 2>&1 | grep x").unwrap();
    assert_eq!(t[0].raw, "cmd");
    assert_eq!(t[1].raw, "2");
    assert!(t[1].space_before);
    assert_eq!(t[2].raw, ">&");
    assert!(!t[2].space_before);
    assert_eq!(t[3].raw, "1");
    assert!(!t[3].space_before);
}
