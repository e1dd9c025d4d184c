use histmine::cli::{command_of, history_file, match_reply, parse_opts, Command, OptParse};
use histmine::matching::{argv_index, best_match, const_count, parse_template, parse_usize, try_match};
use histmine::mine::{command_groups, keep_top, mine, mineable_items, Mined};
use histmine::names::make_name;
use histmine::suggest::{
    detect_shell, hook_snippet, hook_update, manifest_path, manifest_text, parse_manifest,
    rc_path, render_function, Shell, MARKER_CLOSE, MARKER_OPEN,
};
use histmine::tokenize::{tokenize, Quote, Token};
use histmine::words::{looks_secret, quoted_arg, sanitize};

fn items(cmds: &[&str]) -> Vec<(String, Vec<Token>)> {
    cmds.iter()
        .map(|c| (c.to_string(), tokenize(c).unwrap()))
        .collect()
}

fn strings(v: &[&str]) -> Vec<String> {
    v.iter().map(|s| s.to_string()).collect()
}

fn mined(name: &str, body: &str) -> Mined {
    Mined {
        name: name.to_string(),
        body: body.to_string(),
        from_example: String::new(),
        try_example: String::new(),
        n_entries: 3,
        n_params: 1,
        saved: 10,
    }
}

// Splits each command group into clusters by similarity, as the command-line
// program does, and mines them.
fn mine_history(items: &[(String, Vec<Token>)], min_uses: usize) -> (Vec<Mined>, usize) {
    let clusters: Vec<Vec<usize>> = command_groups(items)
        .iter()
        .flat_map(|g| cluster(items, g))
        .collect();
    mine(items, &clusters, min_uses)
}

fn cluster(items: &[(String, Vec<Token>)], group: &[usize]) -> Vec<Vec<usize>> {
    let mut clusters: Vec<Vec<usize>> = Vec::new();
    for &idx in group {
        let mut best = None;
        let mut best_s = 0.55;
        for (ci, c) in clusters.iter().enumerate() {
            let s = similarity(&items[idx].1, &items[c[0]].1);
            if s >= best_s {
                best_s = s;
                best = Some(ci);
            }
        }
        match best {
            Some(ci) => clusters[ci].push(idx),
            None => clusters.push(vec![idx]),
        }
    }
    clusters
}

fn similarity(a: &[Token], b: &[Token]) -> f64 {
    let (n, m) = (a.len(), b.len());
    let mut prev = vec![0f64; m + 1];
    let mut cur = vec![0f64; m + 1];
    for i in 1..=n {
        for j in 1..=m {
            let d = prev[j - 1] + tok_score(&a[i - 1], &b[j - 1]);
            cur[j] = d.max(prev[j]).max(cur[j - 1]);
        }
        std::mem::swap(&mut prev, &mut cur);
    }
    prev[m] / n.max(m) as f64
}

fn tok_score(a: &Token, b: &Token) -> f64 {
    if a.raw == b.raw {
        1.0
    } else if a.op || b.op {
        0.0
    } else {
        0.85 * affix_ratio(&a.raw, &b.raw)
    }
}

fn affix_ratio(a: &str, b: &str) -> f64 {
    let ab = a.as_bytes();
    let bb = b.as_bytes();
    let lim = ab.len().min(bb.len());
    let mut p = 0;
    while p < lim && ab[p] == bb[p] {
        p += 1;
    }
    let mut s = 0;
    while s < lim - p && ab[ab.len() - 1 - s] == bb[bb.len() - 1 - s] {
        s += 1;
    }
    (p + s) as f64 / ab.len().max(bb.len()) as f64
}

#[test]
fn tokenizer_keeps_quote_kind_and_raw_text() {
    let t = tokenize("echo 'a b' \"c\" d\\ e").unwrap();
    assert_eq!(t.len(), 4);
    assert_eq!(t[1].value, "a b");
    assert!(t[1].quote == Quote::Single);
    assert_eq!(t[1].raw, "'a b'");
    assert!(t[2].quote == Quote::Double);
    assert_eq!(t[3].value, "d e");
    assert_eq!(t[3].raw, "d\\ e");
}

#[test]
fn tokenizer_empty_and_blank_lines() {
    assert!(tokenize("").is_none());
    assert!(tokenize("   ").is_none());
    assert!(tokenize("echo 'open").is_none());
}

#[test]
fn mined_function_names_and_savings() {
    let it = items(&[
        "docker tag app:v1 && docker push app:v1",
        "docker tag app:v2 && docker push app:v2",
        "docker tag app:v3 && docker push app:v3",
    ]);
    let (m, withheld) = mine_history(&it, 3);
    assert_eq!(withheld, 0);
    assert_eq!(m.len(), 1);
    assert_eq!(m[0].name, "docker_tag_push");
    assert_eq!(m[0].n_entries, 3);
    assert_eq!(m[0].saved, 51);
    assert_eq!(m[0].from_example, "docker tag app:v1 && docker push app:v1");
    assert_eq!(m[0].try_example, "docker_tag_push app:v1");
}

#[test]
fn mined_ssh_function_name() {
    let it = items(&[
        "ssh prod-3 \"journalctl -u api --since '2 hours ago'\"",
        "ssh prod-7 \"journalctl -u worker --since '10 min ago'\"",
        "ssh prod-1 \"journalctl -u api --since '1 hour ago'\"",
    ]);
    let m = mine_history(&it, 3).0;
    assert_eq!(m[0].name, "ssh_journalctl");
    assert_eq!(m[0].try_example, "ssh_journalctl prod-3 api '2 hours ago'");
}

#[test]
fn too_few_uses_yield_nothing() {
    let it = items(&["git commit -m one", "git commit -m two"]);
    assert!(mine_history(&it, 3).0.is_empty());
    assert_eq!(mine_history(&it, 2).0.len(), 1);
}

#[test]
fn credential_templates_are_withheld() {
    let it = items(&[
        "curl -H token=abc http://x/1",
        "curl -H token=abc http://x/2",
        "curl -H token=abc http://x/3",
    ]);
    let (m, withheld) = mine_history(&it, 3);
    assert!(m.is_empty());
    assert_eq!(withheld, 1);
}

#[test]
fn results_ordered_by_savings() {
    let it = items(&[
        "git commit -m one",
        "git commit -m two",
        "git commit -m three",
        "kubectl logs --namespace production pod-a",
        "kubectl logs --namespace production pod-b",
        "kubectl logs --namespace production pod-c",
    ]);
    let m = mine_history(&it, 3).0;
    assert_eq!(m.len(), 2);
    assert!(m[0].saved >= m[1].saved);
    assert!(m[0].body.starts_with("kubectl"));
}

#[test]
fn secret_detection() {
    assert!(looks_secret("curl -H 'Authorization: Bearer x'"));
    assert!(looks_secret("export API_KEY=abc"));
    assert!(looks_secret("aws s3 ls AKIAEXAMPLE"));
    assert!(looks_secret("echo 0123456789abcdef0123456789ABCDEF"));
    assert!(!looks_secret("echo 0123456789abcdef0123456789abcde"));
    assert!(!looks_secret("git status"));
    assert!(!looks_secret("aws s3 ls akia"));
}

#[test]
fn sanitize_words() {
    assert_eq!(sanitize("Git-Hub.io"), "git_hub_io");
    assert_eq!(sanitize("__A__"), "a");
    assert_eq!(sanitize("--"), "");
    assert_eq!(sanitize("ÉCHO"), "cho");
}

#[test]
fn quoted_args() {
    assert_eq!(quoted_arg("main"), "main");
    assert_eq!(quoted_arg("app:v1"), "app:v1");
    assert_eq!(quoted_arg("2 hours ago"), "'2 hours ago'");
    assert_eq!(quoted_arg("it's"), "'it\\'s'");
    assert_eq!(quoted_arg("a\\b"), "'a\\\\b'");
    assert_eq!(quoted_arg(""), "''");
}

#[test]
fn quoted_arg_reads_back_as_one_word() {
    for v in ["main", "2 hours ago", "it's", "a\\b", "", "$HOME x"] {
        let q = quoted_arg(v);
        let t = tokenize(&q).unwrap();
        assert_eq!(t.len(), 1);
        assert_eq!(t[0].value, v);
    }
}

#[test]
fn names_are_numbered_on_reuse() {
    let mut used = Vec::new();
    let words = strings(&["git", "commit", "-m"]);
    assert_eq!(make_name(&words, &mut used), "git_commit");
    assert_eq!(make_name(&words, &mut used), "git_commit_2");
    assert_eq!(make_name(&words, &mut used), "git_commit_3");
    assert_eq!(make_name(&strings(&["ls", "-la"]), &mut used), "ls_la");
    assert_eq!(
        make_name(&strings(&["/usr/bin/python3.11", "-m", "http.server"]), &mut used),
        "python3_http_server"
    );
    assert_eq!(make_name(&strings(&["make", "make"]), &mut used), "make_x");
    assert_eq!(make_name(&strings(&["A=1", "x/y"]), &mut used), "cmd");
}

#[test]
fn argv_slots_and_numbers() {
    assert_eq!(argv_index("$argv[1]"), Some(1));
    assert_eq!(argv_index("$argv[12]"), Some(12));
    assert_eq!(argv_index("$argv[]"), None);
    assert_eq!(argv_index("$argv[1"), None);
    assert_eq!(argv_index("argv[1]"), None);
    assert_eq!(parse_usize("42"), Some(42));
    assert_eq!(parse_usize("+7"), Some(7));
    assert_eq!(parse_usize(""), None);
    assert_eq!(parse_usize("+"), None);
    assert_eq!(parse_usize("-1"), None);
    assert_eq!(parse_usize("4x"), None);
    assert_eq!(parse_usize("99999999999999999999999"), None);
}

#[test]
fn template_constants_counted() {
    let p = parse_template("docker tag $argv[1] && docker push $argv[1]").unwrap();
    assert_eq!(p.len(), 7);
    assert_eq!(const_count(&p), 5);
    assert!(parse_template("echo \"open").is_none());
}

#[test]
fn best_match_prefers_more_constants() {
    let manifest = vec![
        ("g".to_string(), "git $argv[1] origin $argv[2]".to_string()),
        ("git_push".to_string(), "git push origin $argv[1]".to_string()),
        ("other".to_string(), "hg push origin $argv[1]".to_string()),
    ];
    assert_eq!(
        best_match("git push origin main", &manifest),
        Some(("git_push".to_string(), "main".to_string()))
    );
    assert_eq!(
        best_match("git pull origin main", &manifest),
        Some(("g".to_string(), "pull main".to_string()))
    );
    assert_eq!(best_match("ls -la", &manifest), None);
    assert_eq!(best_match("echo \"open", &manifest), None);
}

#[test]
fn match_reply_lines() {
    let manifest = vec![("git_push".to_string(), "git push origin $argv[1]".to_string())];
    assert_eq!(
        match_reply(&strings(&["git", "push", "origin", "main"]), &manifest),
        Some("histmine: simplified to `git_push` -> try: git_push main".to_string())
    );
    assert_eq!(
        match_reply(&strings(&["--field", "name", "--", "git push origin dev"]), &manifest),
        Some("git_push".to_string())
    );
    assert_eq!(match_reply(&strings(&["--", "  "]), &manifest), None);
    assert_eq!(match_reply(&strings(&[]), &manifest), None);
    assert_eq!(match_reply(&strings(&["ls"]), &manifest), None);
}

#[test]
fn option_parsing() {
    match parse_opts(&strings(&["hist.txt", "--min", "5", "--top", "0", "--shell", "zsh"]), Shell::Fish, "/home/u") {
        OptParse::Run(o) => {
            assert_eq!(o.path, "hist.txt");
            assert_eq!(o.min, 5);
            assert_eq!(o.top, 0);
            assert!(o.shell == Shell::Zsh);
        }
        _ => panic!("expected a run"),
    }
    match parse_opts(&strings(&[]), Shell::Bash, "/home/u") {
        OptParse::Run(o) => {
            assert_eq!(o.path, "/home/u/.local/share/fish/fish_history");
            assert_eq!(o.min, 3);
            assert_eq!(o.top, 25);
            assert!(o.shell == Shell::Bash);
        }
        _ => panic!("expected a run"),
    }
    assert!(matches!(parse_opts(&strings(&["--help"]), Shell::Fish, "/h"), OptParse::Help));
    match parse_opts(&strings(&["--min", "x"]), Shell::Fish, "/h") {
        OptParse::Fail(m) => assert_eq!(m, "--min requires a number"),
        _ => panic!("expected a failure"),
    }
    match parse_opts(&strings(&["--top"]), Shell::Fish, "/h") {
        OptParse::Fail(m) => assert_eq!(m, "--top requires a number"),
        _ => panic!("expected a failure"),
    }
    match parse_opts(&strings(&["--shell", "csh"]), Shell::Fish, "/h") {
        OptParse::Fail(m) => assert_eq!(m, "--shell requires one of: fish, bash, zsh"),
        _ => panic!("expected a failure"),
    }
}

#[test]
fn shells_by_name() {
    assert!(Shell::parse("zsh") == Some(Shell::Zsh));
    assert!(Shell::parse("fish") == Some(Shell::Fish));
    assert!(Shell::parse("bash") == Some(Shell::Bash));
    assert!(Shell::parse("csh").is_none());
    for sh in [Shell::Fish, Shell::Bash, Shell::Zsh] {
        assert!(Shell::parse(sh.name()) == Some(sh));
    }
    assert!(detect_shell("/usr/bin/zsh") == Shell::Zsh);
    assert!(detect_shell("/bin/bash") == Shell::Bash);
    assert!(detect_shell("") == Shell::Fish);
    assert!(detect_shell("/opt/zsh/bin/fish") == Shell::Fish);
}

#[test]
fn paths_from_environment() {
    assert_eq!(
        manifest_path(None, "/home/u"),
        "/home/u/.local/share/histmine/manifest.tsv"
    );
    assert_eq!(
        manifest_path(Some(""), "/home/u/"),
        "/home/u/.local/share/histmine/manifest.tsv"
    );
    assert_eq!(manifest_path(Some("/d"), "/home/u"), "/d/histmine/manifest.tsv");
    assert_eq!(
        rc_path(Shell::Fish, None, "/h"),
        "/h/.config/fish/conf.d/histmine.fish"
    );
    assert_eq!(rc_path(Shell::Fish, Some("/c/"), "/h"), "/c/fish/conf.d/histmine.fish");
    assert_eq!(rc_path(Shell::Bash, None, "/h"), "/h/.bashrc");
    assert_eq!(rc_path(Shell::Zsh, Some("/c"), "/h"), "/h/.zshrc");
}

#[test]
fn rendered_functions() {
    assert_eq!(
        render_function("f", "echo $argv[1]", Shell::Fish),
        "function f\n    echo $argv[1]\nend"
    );
    assert_eq!(
        render_function("f", "echo $argv[1]", Shell::Bash),
        "f() {\n    echo \"$1\"\n}"
    );
    assert_eq!(
        render_function("g", "sh -c \"ls $argv[2]\"", Shell::Zsh),
        "g() {\n    sh -c \"ls $2\"\n}"
    );
}

#[test]
fn hook_installation_text() {
    let s = hook_snippet(Shell::Zsh);
    assert!(s.starts_with(MARKER_OPEN));
    assert!(s.ends_with(&format!("{}\n", MARKER_CLOSE)));
    assert!(s.contains("add-zsh-hook preexec"));
    assert_eq!(hook_update("", Shell::Fish), Some(hook_snippet(Shell::Fish)));
    assert_eq!(
        hook_update("alias x=y", Shell::Bash),
        Some(format!("alias x=y\n{}", hook_snippet(Shell::Bash)))
    );
    assert_eq!(
        hook_update("a\n", Shell::Bash),
        Some(format!("a\n{}", hook_snippet(Shell::Bash)))
    );
    let installed = hook_update("", Shell::Bash).unwrap();
    assert_eq!(hook_update(&installed, Shell::Bash), None);
}

#[test]
fn manifest_round_trip() {
    let ms = vec![
        mined("git_push", "git push origin $argv[1]"),
        mined("bad", "has\ttab"),
        mined("ssh_j", "ssh $argv[1] \"journalctl -u $argv[2]\""),
    ];
    let text = manifest_text(&ms);
    assert_eq!(
        text,
        "git_push\tgit push origin $argv[1]\nssh_j\tssh $argv[1] \"journalctl -u $argv[2]\"\n"
    );
    let back = parse_manifest(&text);
    assert_eq!(
        back,
        vec![
            ("git_push".to_string(), "git push origin $argv[1]".to_string()),
            ("ssh_j".to_string(), "ssh $argv[1] \"journalctl -u $argv[2]\"".to_string()),
        ]
    );
}

#[test]
fn manifest_lines_without_tab_are_skipped() {
    let back = parse_manifest("junk\na\tb\tc\r\nlast\tx\r");
    assert_eq!(
        back,
        vec![
            ("a".to_string(), "b\tc".to_string()),
            ("last".to_string(), "x\r".to_string()),
        ]
    );
}

#[test]
fn mineable_history_entries() {
    let raw = strings(&["git push origin main", "ls", "echo \"open x y", "a\nb c d", "a b c"]);
    let it = mineable_items(raw);
    let cmds: Vec<&str> = it.iter().map(|(c, _)| c.as_str()).collect();
    assert_eq!(cmds, vec!["git push origin main", "a b c"]);
    assert_eq!(it[0].1.len(), 4);
}

#[test]
fn top_functions_kept() {
    let ms = vec![mined("a", "a"), mined("b", "b"), mined("c", "c")];
    let kept = keep_top(ms, 2);
    assert_eq!(kept.len(), 2);
    assert_eq!(kept[1].name, "b");
    let all = keep_top(vec![mined("a", "a"), mined("b", "b")], 0);
    assert_eq!(all.len(), 2);
}

#[test]
fn commands_from_arguments() {
    assert!(command_of(&strings(&["match", "--", "ls"])) == Command::Match);
    assert!(command_of(&strings(&["install"])) == Command::Install);
    assert!(command_of(&strings(&["uninstall", "--shell", "zsh"])) == Command::Uninstall);
    assert!(command_of(&strings(&["--shell", "zsh", "--print-hook"])) == Command::Hook { print_only: true });
    assert!(command_of(&strings(&["--install-hook"])) == Command::Hook { print_only: false });
    assert!(command_of(&strings(&["hist", "--min", "2"])) == Command::Mine);
    assert!(command_of(&strings(&[])) == Command::Mine);
    assert!(command_of(&strings(&["x", "match"])) == Command::Mine);
}

#[test]
fn mined_functions_recognize_their_commands() {
    let cmds = [
        "ssh prod-3 \"journalctl -u api --since '2 hours ago'\"",
        "ssh prod-7 \"journalctl -u worker --since '10 min ago'\"",
        "ssh prod-1 \"journalctl -u api --since '1 hour ago'\"",
        "docker tag app:v1 && docker push app:v1",
        "docker tag app:v2 && docker push app:v2",
        "docker tag app:v3 && docker push app:v3",
    ];
    let it = items(&cmds);
    let m = mine_history(&it, 3).0;
    assert_eq!(m.len(), 2);
    let manifest = parse_manifest(&manifest_text(&m));
    assert_eq!(
        best_match(cmds[1], &manifest),
        Some(("ssh_journalctl".to_string(), "prod-7 worker '10 min ago'".to_string()))
    );
    assert_eq!(
        best_match(cmds[4], &manifest),
        Some(("docker_tag_push".to_string(), "app:v2".to_string()))
    );
    assert_eq!(best_match("docker tag a && docker push b", &manifest), None);
}

#[test]
fn default_history_file() {
    assert_eq!(history_file(None, "/home/u"), "/home/u/.local/share/fish/fish_history");
    assert_eq!(history_file(None, ""), ".local/share/fish/fish_history");
    assert_eq!(history_file(Some("h.txt"), "/home/u"), "h.txt");
    match parse_opts(&strings(&["--min", "2"]), Shell::Fish, "/root/") {
        OptParse::Run(o) => assert_eq!(o.path, "/root/.local/share/fish/fish_history"),
        _ => panic!("expected a run"),
    }
}

#[test]
fn raising_the_minimum_only_removes_functions() {
    let it = items(&[
        "git commit -m one",
        "git commit -m two",
        "git commit -m three",
        "kubectl logs --namespace production pod-a",
        "kubectl logs --namespace production pod-b",
    ]);
    let (low, w_low) = mine_history(&it, 2);
    let (high, w_high) = mine_history(&it, 3);
    assert_eq!(low.len(), 2);
    assert_eq!(high.len(), 1);
    assert!(high.iter().all(|h| low.iter().any(|l| l.body == h.body)));
    assert!(w_high <= w_low);
}

#[test]
fn hook_marker_appears_once() {
    for sh in [Shell::Fish, Shell::Bash, Shell::Zsh] {
        let once = hook_update("export A=1", sh).unwrap();
        assert_eq!(once.matches(MARKER_OPEN).count(), 1);
        assert_eq!(hook_update(&once, sh), None);
    }
}

#[test]
fn sanitizing_twice_changes_nothing() {
    for w in ["Foo--Bar.baz", "__x__y__", "kubectl", "a b\tc", "", "--"] {
        let r = sanitize(w);
        assert_eq!(sanitize(&r), r);
        assert!(!r.starts_with('_') && !r.ends_with('_') && !r.contains("__"));
    }
    assert_eq!(sanitize("Foo--Bar.baz"), "foo_bar_baz");
}

#[test]
fn mined_examples_match_their_bodies() {
    let it = items(&[
        "ssh prod-3 \"journalctl -u api --since '2 hours ago'\"",
        "ssh prod-7 \"journalctl -u worker --since '10 min ago'\"",
        "ssh prod-1 \"journalctl -u api --since '1 hour ago'\"",
        "docker tag app:v1 && docker push app:v1",
        "docker tag app:v2 && docker push app:v2",
        "docker tag app:v3 && docker push app:v3",
    ]);
    for m in mine_history(&it, 3).0 {
        let ps = parse_template(&m.body).unwrap();
        let caps = try_match(&ps, &tokenize(&m.from_example).unwrap()).unwrap();
        let slots: Vec<usize> = caps.iter().map(|(n, _)| *n).collect();
        assert_eq!(slots, (1..=m.n_params).collect::<Vec<_>>());
        let args: Vec<String> = caps.iter().map(|(_, v)| quoted_arg(v)).collect();
        assert_eq!(format!("{} {}", m.name, args.join(" ")), m.try_example);
    }
}

#[test]
fn best_match_counts_constants_inside_quotes() {
    let manifest = vec![
        ("ssh_any".to_string(), "ssh $argv[1] $argv[2]".to_string()),
        (
            "ssh_journalctl".to_string(),
            "ssh $argv[1] \"journalctl -u $argv[2] --since '$argv[3]'\"".to_string(),
        ),
    ];
    assert_eq!(const_count(&parse_template(&manifest[0].1).unwrap()), 1);
    assert_eq!(const_count(&parse_template(&manifest[1].1).unwrap()), 4);
    assert_eq!(
        best_match("ssh prod-3 \"journalctl -u api --since '2 hours ago'\"", &manifest),
        Some(("ssh_journalctl".to_string(), "prod-3 api '2 hours ago'".to_string()))
    );
    assert_eq!(
        best_match("ssh prod-3 uptime", &manifest),
        Some(("ssh_any".to_string(), "prod-3 uptime".to_string()))
    );
}

#[test]
fn command_groups_by_size_then_head() {
    let it = items(&["ls a b", "git a b", "git c d", "cd x y"]);
    assert_eq!(command_groups(&it), vec![vec![1, 2], vec![3], vec![0]]);
}

#[test]
fn sanitized_words_are_lowercase_identifiers() {
    for w in ["ÉCOLE-Straße", "HELLO_World", "MiXeD42Case", "K\u{212a}elvin", "İstanbul"] {
        let r = sanitize(w);
        assert!(r.chars().all(|c| c.is_ascii_lowercase() || c.is_ascii_digit() || c == '_'));
        assert_eq!(sanitize(&r), r);
    }
    assert_eq!(sanitize("ÉCOLE-Straße"), "cole_stra_e");
    assert_eq!(sanitize("snake_case_1"), "snake_case_1");
}

#[test]
fn made_names_are_lowercase_identifiers() {
    let mut used = Vec::new();
    let words = strings(&["Docker", "BUILD", "--Tag"]);
    let first = make_name(&words, &mut used);
    assert_eq!(first, "docker_build");
    let second = make_name(&words, &mut used);
    assert_eq!(second, "docker_build_2");
    for n in [first, second] {
        assert!(n.chars().all(|c| c.is_ascii_lowercase() || c.is_ascii_digit() || c == '_'));
    }
}
