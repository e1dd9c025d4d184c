use histmine::mine::{command_groups, mine, Mined};
use histmine::tokenize::{tokenize, Token};

fn items(cmds: &[&str]) -> Vec<(String, Vec<Token>)> {
    cmds.iter()
        .map(|c| (c.to_string(), tokenize(c).unwrap()))
        .collect()
}

// Splits each command group into clusters by similarity, as the command-line
// program does, and mines them.
fn mine_history(items: &[(String, Vec<Token>)], min_uses: usize) -> (Vec<Mined>, usize) {
    let clusters: Vec<Vec<usize>> = command_groups(items)
        .iter()
        .flat_map(|g| cluster(items, g))
        .collect();
    mine(items, &clusters, min_uses)
}

fn cluster(items: &[(String, Vec<Token>)], group: &[usize]) -> Vec<Vec<usize>> {
    let mut clusters: Vec<Vec<usize>> = Vec::new();
    for &idx in group {
        let mut best = None;
        let mut best_s = 0.55;
        for (ci, c) in clusters.iter().enumerate() {
            let s = similarity(&items[idx].1, &items[c[0]].1);
            if s >= best_s {
                best_s = s;
                best = Some(ci);
            }
        }
        match best {
            Some(ci) => clusters[ci].push(idx),
            None => clusters.push(vec![idx]),
        }
    }
    clusters
}

fn similarity(a: &[Token], b: &[Token]) -> f64 {
    let (n, m) = (a.len(), b.len());
    let mut prev = vec![0f64; m + 1];
    let mut cur = vec![0f64; m + 1];
    for i in 1..=n {
        for j in 1..=m {
            let d = prev[j - 1] + tok_score(&a[i - 1], &b[j - 1]);
            cur[j] = d.max(prev[j]).max(cur[j - 1]);
        }
        std::mem::swap(&mut prev, &mut cur);
    }
    prev[m] / n.max(m) as f64
}

fn tok_score(a: &Token, b: &Token) -> f64 {
    if a.raw == b.raw {
        1.0
    } else if a.op || b.op {
        0.0
    } else {
        0.85 * affix_ratio(&a.raw, &b.raw)
    }
}

fn affix_ratio(a: &str, b: &str) -> f64 {
    let ab = a.as_bytes();
    let bb = b.as_bytes();
    let lim = ab.len().min(bb.len());
    let mut p = 0;
    while p < lim && ab[p] == bb[p] {
        p += 1;
    }
    let mut s = 0;
    while s < lim - p && ab[ab.len() - 1 - s] == bb[bb.len() - 1 - s] {
        s += 1;
    }
    (p + s) as f64 / ab.len().max(bb.len()) as f64
}

#[test]
fn lgg_with_inner_recursion() {
    let it = items(&[
        "ssh prod-3 \"journalctl -u api --since '2 hours ago'\"",
        "ssh prod-7 \"journalctl -u worker --since '10 min ago'\"",
        "ssh prod-1 \"journalctl -u api --since '1 hour ago'\"",
    ]);
    let m = mine_history(&it, 3).0;
    assert_eq!(m.len(), 1);
    assert_eq!(
        m[0].body,
        "ssh $argv[1] \"journalctl -u $argv[2] --since '$argv[3]'\""
    );
    assert_eq!(m[0].n_params, 3);
}

#[test]
fn correlated_slots_share_one_param() {
    let it = items(&[
        "docker tag app:v1 && docker push app:v1",
        "docker tag app:v2 && docker push app:v2",
        "docker tag app:v3 && docker push app:v3",
    ]);
    let m = mine_history(&it, 3).0;
    assert_eq!(m.len(), 1);
    assert_eq!(m[0].n_params, 1);
    assert_eq!(m[0].body, "docker tag $argv[1] && docker push $argv[1]");
}

#[test]
fn distinct_subcommands_do_not_merge() {
    let it = items(&[
        "git commit -m one",
        "git commit -m two",
        "git commit -m three",
        "git push origin main",
        "git push origin dev",
        "git push origin main",
    ]);
    let m = mine_history(&it, 3).0;
    let bodies: Vec<&str> = m.iter().map(|x| x.body.as_str()).collect();
    assert!(bodies.contains(&"git commit -m $argv[1]"));
    assert!(bodies.contains(&"git push origin $argv[1]"));
}

#[test]
fn identical_repeats_yield_nothing() {
    let it = items(&["pnpm run dev", "pnpm run dev", "pnpm run dev"]);
    assert!(mine_history(&it, 3).0.is_empty());
}

#[test]
fn redirect_renders_without_stray_spaces() {
    let it = items(&[
        "timeout 30 cargo run 2>&1 | grep DEBUG",
        "timeout 45 cargo run 2>&1 | grep TRACE",
        "timeout 60 cargo run 2>&1 | grep WARN",
    ]);
    let m = mine_history(&it, 3).0;
    assert_eq!(m.len(), 1);
    assert!(
        m[0].body.contains("2>&1"),
        "redirect mangled: {}",
        m[0].body
    );
    assert!(!m[0].body.contains("2 >& 1"));
}

#[test]
fn similarity_just_under_threshold_splits_clusters() {
    let it = items(&[
        "git push origin aaaaaabbbbbbbbbbb x y",
        "git push origin aaaaaaccccccccccc z w",
    ]);
    assert_eq!(command_groups(&it), vec![vec![0, 1]]);
    assert_eq!(cluster(&it, &[0, 1]), vec![vec![0], vec![1]]);
    assert!(mine_history(&it, 2).0.is_empty());
}
