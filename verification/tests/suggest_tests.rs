use histmine::matching::{parse_template, try_match};
use histmine::suggest::to_posix_body;
use histmine::tokenize::tokenize;
use histmine::words::quoted_arg;

fn best_template(name: &str, body: &str, cmd: &str) -> (String, String) {
    let pieces = parse_template(body).unwrap();
    let input = tokenize(cmd).unwrap();
    let caps = try_match(&pieces, &input).unwrap();
    let args = caps
        .iter()
        .map(|(_, v)| quoted_arg(v))
        .collect::<Vec<_>>()
        .join(" ");
    (name.to_string(), args)
}

#[test]
fn matches_simple_template_and_renders_args() {
    let (name, args) = best_template(
        "git_push",
        "git push origin $argv[1]",
        "git push origin main",
    );
    assert_eq!(name, "git_push");
    assert_eq!(args, "main");
}

#[test]
fn matches_inner_and_correlated() {
    let (_, args) = best_template(
        "ssh_journalctl",
        "ssh $argv[1] \"journalctl -u $argv[2] --since '$argv[3]'\"",
        "ssh prod-3 \"journalctl -u api --since '2 hours ago'\"",
    );
    assert_eq!(args, "prod-3 api '2 hours ago'");
}

#[test]
fn correlated_slot_must_be_consistent() {
    let body = "docker tag $argv[1] && docker push $argv[1]";
    let pieces = parse_template(body).unwrap();
    assert!(try_match(&pieces, &tokenize("docker tag a && docker push a").unwrap()).is_some());
    assert!(try_match(&pieces, &tokenize("docker tag a && docker push b").unwrap()).is_none());
}

#[test]
fn non_matching_command_yields_nothing() {
    let pieces = parse_template("git push origin $argv[1]").unwrap();
    assert!(try_match(&pieces, &tokenize("git commit -m x").unwrap()).is_none());
}

#[test]
fn posix_body_quotes_bare_slots_only() {
    let p = to_posix_body("ssh $argv[1] \"journalctl -u $argv[2] --since '$argv[3]'\"");
    assert_eq!(p, "ssh \"$1\" \"journalctl -u $2 --since '$3'\"");
}

#[test]
fn posix_correlated_slot() {
    assert_eq!(
        to_posix_body("docker tag $argv[1] && docker push $argv[1]"),
        "docker tag \"$1\" && docker push \"$1\""
    );
}
