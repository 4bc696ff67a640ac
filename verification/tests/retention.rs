use breezy_registry::config::RetentionCfg;
use breezy_registry::retention::{
    collects, compile, give_up, group, pause_seconds, plan, select_victims,
};

fn cfg(keep_newest: usize, keep_days: i64, protect: Vec<String>) -> RetentionCfg {
    RetentionCfg {
        enabled: true,
        interval_seconds: 86_400,
        keep_newest,
        keep_days,
        tag_pattern: r"^[0-9a-f]{40}$".into(),
        protect,
        run_gc: true,
    }
}

fn sha(n: u8) -> String {
    format!("{:040x}", n)
}

const DAY: i64 = 86_400;
const NOW: i64 = 1_000 * DAY;

fn re(cfg: &RetentionCfg) -> regex::Regex {
    regex::Regex::new(&cfg.tag_pattern).unwrap()
}

#[test]
fn keeps_the_newest_n_and_deletes_the_rest() {
    // 5 old SHA tags, newest-2 window, no recency rescue.
    let tags: Vec<(String, i64)> = (0..5)
        .map(|i| (sha(i), NOW - 30 * DAY + i as i64))
        .collect();
    let c = cfg(2, 2, vec![]);
    let victims = select_victims("team/app", &tags, NOW, &c, &re(&c));
    // Newest two are sha(4), sha(3); the rest go.
    assert_eq!(victims.len(), 3);
    assert!(!victims.contains(&sha(4)));
    assert!(!victims.contains(&sha(3)));
}

#[test]
fn recency_rescues_beyond_the_count_window() {
    // Ten tags pushed an hour ago: all inside keep_days, none deleted even
    // though keep_newest is 1. A merge burst must not eat its own tail.
    let tags: Vec<(String, i64)> = (0..10).map(|i| (sha(i), NOW - 3_600)).collect();
    let c = cfg(1, 2, vec![]);
    assert!(select_victims("team/app", &tags, NOW, &c, &re(&c)).is_empty());
}

#[test]
fn human_named_tags_are_never_candidates() {
    let tags = vec![
        ("latest".to_string(), NOW - 100 * DAY),
        ("v1.2.3".to_string(), NOW - 100 * DAY),
        (sha(1), NOW - 100 * DAY),
    ];
    // keep_newest 0: even with no rollback window, only the SHA is up for
    // deletion — deleting `latest` would take the tag every deploy pulls.
    let c = cfg(0, 2, vec![]);
    let victims = select_victims("team/app", &tags, NOW, &c, &re(&c));
    assert_eq!(victims, vec![sha(1)]);
}

#[test]
fn protect_pins_a_tag_the_policy_would_take() {
    // The case only the operator can know: a deployment frozen on an old
    // build whose tag has aged out of every automatic window.
    let tags: Vec<(String, i64)> = (0..5)
        .map(|i| (sha(i), NOW - 30 * DAY + i as i64))
        .collect();
    let c = cfg(1, 2, vec![format!("team/app:{}", sha(0))]);
    let victims = select_victims("team/app", &tags, NOW, &c, &re(&c));
    assert!(!victims.contains(&sha(0)));
    // Protection is per-repo: the same tag name in another repo still goes.
    let other = select_victims("team/other", &tags, NOW, &c, &re(&c));
    assert!(other.contains(&sha(0)));
}

#[test]
fn selection_is_deterministic_under_equal_timestamps() {
    // Same pushed_at everywhere: the name tiebreak makes two runs agree on
    // which tags sit inside the newest-N window.
    let tags: Vec<(String, i64)> = (0..6).map(|i| (sha(i), NOW - 30 * DAY)).collect();
    let c = cfg(3, 2, vec![]);
    let a = select_victims("team/app", &tags, NOW, &c, &re(&c));
    let b = select_victims("team/app", &tags, NOW, &c, &re(&c));
    assert_eq!(a, b);
    assert_eq!(a.len(), 3);
}

#[test]
fn an_empty_repo_selects_nothing() {
    let c = cfg(10, 2, vec![]);
    assert!(select_victims("team/app", &[], NOW, &c, &re(&c)).is_empty());
}

#[test]
fn the_order_of_reading_does_not_matter() {
    let mut tags: Vec<(String, i64)> =
        (0..9).map(|i| (sha(i), NOW - 30 * DAY + (i / 3) as i64)).collect();
    let c = cfg(4, 2, vec![]);
    let a = give_up("r", &tags, NOW, &c);
    // Newest first, names break ties: 6 7 8 3 stay, then 4 5 0 1 2.
    let names: Vec<String> = a.iter().map(|(name, _)| name.clone()).collect();
    assert_eq!(names, vec![sha(4), sha(5), sha(0), sha(1), sha(2)]);
    assert_eq!(a[0].1, NOW - 30 * DAY + 1);
    tags.reverse();
    assert_eq!(give_up("r", &tags, NOW, &c), a);
    // A push exactly at the edge of the window does not protect any less than one day after.
    let edge = vec![("x".to_string(), NOW - 2 * DAY), ("y".to_string(), NOW - 2 * DAY - 1)];
    assert_eq!(give_up("r", &edge, NOW, &cfg(0, 2, vec![])), vec![edge[1].clone()]);
}

#[test]
fn patterns_compile_or_say_why() {
    let mut c = cfg(0, 0, vec![]);
    assert!(compile(&c).unwrap().is_match(&sha(3)));
    c.tag_pattern = "(".into();
    let why = compile(&c).unwrap_err();
    assert!(why.starts_with("retention.tag_pattern does not parse: "));
    assert!(why.len() > "retention.tag_pattern does not parse: ".len());
}

#[test]
fn a_sweep_is_planned_by_repository() {
    let c = cfg(1, 2, vec![]);
    let mut rows = vec![];
    for i in 0..3 {
        rows.push(("b".to_string(), sha(i), NOW - 30 * DAY + i as i64));
        rows.push(("a".to_string(), sha(i), NOW - 30 * DAY + i as i64));
    }
    rows.push(("quiet".to_string(), "latest".to_string(), 0));
    let groups = group(&rows);
    let names: Vec<&str> = groups.iter().map(|g| g.repo.as_str()).collect();
    assert_eq!(names, vec!["b", "a", "quiet"]);
    assert_eq!(groups[1].tags.len(), 3);
    let p = plan(&rows, NOW, &c, &re(&c));
    assert_eq!(p.deleted.len(), 2);
    for given in &p.deleted {
        assert!(given.repo == "a" || given.repo == "b");
        let old = NOW - 30 * DAY;
        assert_eq!(given.tags, vec![(sha(1), old + 1), (sha(0), old)]);
    }
    assert_eq!((p.tags_deleted, p.tags_kept), (4, 3));
}

#[test]
fn sweeps_pause_and_collect() {
    let mut c = cfg(1, 2, vec![]);
    assert_eq!(pause_seconds(&c), 86_400);
    c.interval_seconds = 5;
    assert_eq!(pause_seconds(&c), 60);
    c.interval_seconds = -1;
    assert_eq!(pause_seconds(&c), 60);
    assert!(collects(&c, false) && !collects(&c, true));
    c.run_gc = false;
    assert!(!collects(&c, false));
}
