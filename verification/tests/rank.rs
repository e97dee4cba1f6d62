use std::collections::{BTreeMap, BTreeSet};

use durable::json::Json;
use durable::plan::{finalize, nothing_to_compact, plan_pairs};
use durable::project::{project_json, Event};
use durable::ranking::{
    connected_components, rank_from_comparisons, ranked_items_subset, Comparison,
};
use durable::score::{before, cut, has_substr, parse_score, strip_tags};

fn ids(names: &[&str]) -> Vec<String> {
    names.iter().map(|n| n.to_string()).collect()
}

fn vote(a: &str, b: &str, score: i32) -> Comparison {
    Comparison { a_id: a.to_string(), b_id: b.to_string(), score }
}

fn bits(scores: &[f64]) -> Vec<u64> {
    scores.iter().map(|s| s.to_bits()).collect()
}

/// The rank centrality of the places `idxs`: how often a walk along the votes is
/// at each of them.
fn centrality(ids: &[String], votes: &[Comparison], idxs: &[usize]) -> Vec<u64> {
    let n = idxs.len();
    let at = |id: &str| {
        let i = ids.iter().rposition(|x| x == id)?;
        idxs.iter().position(|&x| x == i)
    };
    let mut edges: BTreeMap<(usize, usize), f64> = BTreeMap::new();
    for c in votes {
        if let (Some(i), Some(j)) = (at(&c.a_id), at(&c.b_id)) {
            let p = (c.score + 50) as f64 / 100.0;
            *edges.entry((j, i)).or_insert(0.0) += p;
            *edges.entry((i, j)).or_insert(0.0) += 1.0 - p;
        }
    }
    edges.retain(|_, w| *w > 0.0);
    let mut out: Vec<Vec<(usize, f64)>> = vec![Vec::new(); n];
    let mut near: Vec<BTreeSet<usize>> = vec![BTreeSet::new(); n];
    for (&(i, j), &w) in &edges {
        let total = w + edges.get(&(j, i)).copied().unwrap_or(0.0);
        out[i].push((j, w / total));
        near[i].insert(j);
        near[j].insert(i);
    }
    let degree = near.iter().map(|s| s.len()).max().unwrap_or(0) as f64;
    let mut scores = vec![1.0 / n as f64; n];
    if degree == 0.0 {
        return bits(&scores);
    }
    for _ in 0..10000 {
        let mut next = vec![0.0f64; n];
        for i in 0..n {
            let leaves: f64 = out[i].iter().map(|(_, w)| *w).sum();
            next[i] += scores[i] * (degree - leaves) / degree;
            for &(j, w) in &out[i] {
                next[j] += scores[i] * (w / degree);
            }
        }
        let diff: f64 = scores.iter().zip(&next).map(|(a, b)| (a - b).abs()).sum();
        scores = next;
        if diff < 1e-8 {
            break;
        }
    }
    let sum: f64 = scores.iter().sum();
    bits(&scores.iter().map(|s| s / sum).collect::<Vec<f64>>())
}

/// The scores of each component in turn.
fn scores_of(ids: &Vec<String>, votes: &Vec<Comparison>) -> Vec<Vec<u64>> {
    let (comps, _) = connected_components(ids, votes);
    comps.iter().map(|c| centrality(ids, votes, c)).collect()
}

fn text(s: &str) -> Json {
    Json::Str(s.to_string())
}

fn object(members: Vec<(&str, Json)>) -> Json {
    Json::Object(members.into_iter().map(|(k, v)| (k.to_string(), v)).collect())
}

#[test]
fn last_number_wins() {
    assert_eq!(parse_score("start 50 then I prefer B: -12"), Some(-12));
    assert_eq!(parse_score("no score here"), None);
    assert_eq!(parse_score("999"), Some(50));
    assert_eq!(parse_score("-999"), Some(-50));
    assert_eq!(parse_score("7 then 99999999999999999999"), Some(50));
    assert_eq!(parse_score("99999999999999999999"), Some(50));
    assert_eq!(parse_score("-99999999999999999999"), Some(-50));
    assert_eq!(parse_score("--0049 -"), Some(-49));
}

#[test]
fn declaration_marker() {
    assert!(has_substr("ok !declaration stay", "!declaration"));
    assert!(!has_substr("hello", "!declaration"));
    assert!(!has_substr("hello", ""));
}

#[test]
fn before_cuts_at_needle() {
    assert_eq!(before("hello [Response] hello", "[Response]"), "hello");
    assert_eq!(before("just once", "[Response]"), "just once");
}

#[test]
fn strips_memory_tags() {
    assert_eq!(strip_tags("<thought>hi</thought>"), "hi");
    assert_eq!(strip_tags("  <response>yo</response>  "), "yo");
    assert_eq!(cut(" aXbX ", "X"), "ab");
    assert_eq!(cut(" a ", ""), " a ");
}

#[test]
fn single_item() {
    assert_eq!(rank_from_comparisons(&ids(&["a"]), &vec![], &vec![]), vec!["a"]);
}

#[test]
fn clear_winner() {
    let names = ids(&["a", "b"]);
    let votes = vec![vote("a", "b", 50)];
    let ranked = rank_from_comparisons(&names, &votes, &scores_of(&names, &votes));
    assert_eq!(ranked[0], "a");
}

#[test]
fn star_topology_winner_at_top_via_subset() {
    let names = ids(&["alpha", "beta", "zebra"]);
    let votes = vec![vote("zebra", "alpha", 17), vote("zebra", "beta", 17)];
    let idxs = vec![0, 1, 2];
    let ranked = ranked_items_subset(&names, &idxs, &centrality(&names, &votes, &idxs));
    assert_eq!(ranked[0].item, "zebra", "zebra won both votes and should rank #1");
}

#[test]
fn equal_scores_stay_in_place() {
    let names = ids(&["alpha", "beta", "zebra"]);
    let ranked = ranked_items_subset(&names, &vec![0, 1, 2], &bits(&[0.25, 0.25, 0.5]));
    assert_eq!(ranked[0].item, "zebra");
    assert_eq!(ranked[1].item, "alpha");
    assert_eq!(ranked[2].item, "beta");
}

#[test]
fn connected_components_split_disconnected_pairs() {
    let names = ids(&["a", "b", "c", "d"]);
    let (comps, isolates) =
        connected_components(&names, &vec![vote("a", "b", 50), vote("c", "d", 50)]);
    assert!(isolates.is_empty());
    assert_eq!(comps, vec![vec![0, 1], vec![2, 3]]);
}

#[test]
fn subset_ranking_ranks_within_component_only() {
    let names = ids(&["a", "b", "c", "d"]);
    let votes = vec![vote("a", "b", 50), vote("c", "d", -50)];
    let (comps, _) = connected_components(&names, &votes);
    assert_eq!(comps.len(), 2);
    for comp in comps {
        let ranked = ranked_items_subset(&names, &comp, &centrality(&names, &votes, &comp));
        assert_eq!(ranked.len(), 2);
        let got: Vec<&str> = ranked.iter().map(|r| r.item.as_str()).collect();
        if got.contains(&"a") {
            assert_eq!(got[0], "a");
        } else {
            assert_eq!(got[0], "d");
        }
    }
}

#[test]
fn rank_from_comparisons_ranks_each_component_separately() {
    let names = ids(&["a", "b", "c", "d", "loner"]);
    let votes = vec![vote("a", "b", 50), vote("c", "d", -50)];
    let ranked = rank_from_comparisons(&names, &votes, &scores_of(&names, &votes));
    let pos = |id: &str| ranked.iter().position(|x| x == id).unwrap();
    assert!(pos("a") < pos("b"));
    assert!(pos("d") < pos("c"));
    assert_eq!(pos("loner"), 4);
}

#[test]
fn nothing_when_already_within_budget() {
    assert!(nothing_to_compact(4, 4, 4));
    assert!(nothing_to_compact(0, 0, 10));
    assert!(!nothing_to_compact(8, 8, 4));
    assert!(!nothing_to_compact(8, 4, 10));
}

#[test]
fn finalize_keeps_the_winner() {
    let names = ids(&["a", "b", "c"]);
    let votes = vec![vote("a", "b", 50), vote("a", "c", 50)];
    let scores = scores_of(&names, &votes);
    let out = finalize(&names, &names, &votes, &scores, 1);
    assert_eq!(out.kept, vec!["a"]);
    assert_eq!(out.released, vec!["b".to_string(), "c".to_string()]);
    let out = finalize(&names, &ids(&["z", "c", "b", "z"]), &votes, &scores, 7);
    assert_eq!(out.kept.len(), 3);
    assert_eq!(out.kept[0], "a");
    assert_eq!(out.released, vec!["z".to_string()]);
    let out = finalize(&names, &names, &votes, &scores, 0);
    assert_eq!(out.kept.len(), 0);
    assert_eq!(out.released, names);
}

#[test]
fn plan_bridges_two_components() {
    let names = ids(&["a", "b", "c", "d"]);
    let plan = plan_pairs(&names, &vec![vote("a", "b", 50), vote("c", "d", 50)], 1);
    assert!(!plan.pairs.is_empty());
    let bridged = plan.pairs.iter().any(|(x, y)| {
        let left = (x == "a" || x == "b") && (y == "c" || y == "d");
        let right = (x == "c" || x == "d") && (y == "a" || y == "b");
        left || right
    });
    assert!(bridged, "expected a cross-component pair: {:?}", plan.pairs);
}

#[test]
fn same_seed_same_pairs() {
    let names: Vec<String> = (0..12).map(|i| format!("m{}", i)).collect();
    let a = plan_pairs(&names, &vec![], 42);
    let b = plan_pairs(&names, &vec![], 42);
    assert_eq!(a.pairs, b.pairs);
    let known: Vec<(String, String)> = a
        .pairs
        .iter()
        .map(|(x, y)| if x < y { (x.clone(), y.clone()) } else { (y.clone(), x.clone()) })
        .collect();
    for (i, p) in known.iter().enumerate() {
        assert_ne!(p.0, p.1);
        assert!(!known[..i].contains(p));
    }
}

#[test]
fn strips_api_key_and_counts_memories() {
    let events = vec![
        object(vec![
            ("api_key", text("SECRET")),
            ("capacity", Json::Int(6)),
            ("id", text("i")),
            ("model", text("m")),
            ("type", text("init")),
            ("vote_model", text("v")),
        ]),
        object(vec![("content", text("be kind")), ("id", text("d")), ("type", text("declaration"))]),
        object(vec![("content", text("hi")), ("id", text("p1")), ("type", text("perception"))]),
        object(vec![("content", text("hello")), ("id", text("r1")), ("type", text("response"))]),
    ];
    let p = project_json(&events);
    let init = p.member("all").member("i");
    assert!(matches!(init, Json::Object(_)));
    assert!(matches!(init.member("api_key"), Json::Null));
    assert!(matches!(p.member("memories"), Json::Int(2)));
    assert!(matches!(p.member("declaration"), Json::Str(s) if s == "be kind"));
    assert!(matches!(p.member("capacity"), Json::Int(6)));
}

#[test]
fn compaction_releases_and_can_restore() {
    let events = vec![
        object(vec![("content", text("a")), ("id", text("a")), ("type", text("perception"))]),
        object(vec![("content", text("b")), ("id", text("b")), ("type", text("perception"))]),
        object(vec![
            ("kept_ids", Json::Array(vec![text("a")])),
            ("released_ids", Json::Array(vec![text("b")])),
            ("type", text("compaction")),
        ]),
    ];
    let p = project_json(&events);
    assert!(matches!(p.member("memories"), Json::Int(1)));
    assert!(matches!(p.member("current").member("a"), Json::Object(_)));
    assert!(matches!(p.member("current").member("b"), Json::Null));
    assert!(matches!(p.member("all").member("b"), Json::Object(_)));
}

#[test]
fn what_spells_no_event_is_passed_over() {
    assert!(Event::from_json(&object(vec![("type", text("unknown"))])).is_none());
    assert!(Event::from_json(&object(vec![("content", text("x"))])).is_none());
    let bad = object(vec![("content", Json::Int(1)), ("type", text("thought"))]);
    assert!(Event::from_json(&bad).is_none());
    let short = Json::Array(vec![text("thought"), Json::Int(5), text("hm")]);
    match Event::from_json(&short) {
        Some(Event::Thought(m)) => {
            assert_eq!((m.timestamp, m.content.as_str(), m.id.as_str()), (5, "hm", ""));
        }
        other => panic!("{:?}", other),
    }
    let p = project_json(&vec![bad, short]);
    assert!(matches!(p.member("count"), Json::Int(1)));
}

#[test]
fn plans_do_not_depend_on_the_order_of_names_and_votes() {
    let names: Vec<String> = (0..30).map(|i| format!("m{}", i)).collect();
    let votes = || {
        let mut v: Vec<Comparison> =
            (0..12).map(|i| vote(&names[2 * i], &names[2 * i + 1], 10)).collect();
        v.push(vote("m3", "m8", -10));
        v
    };
    let plan = plan_pairs(&names, &votes(), 7);
    let mut turned = names.clone();
    turned.reverse();
    turned.push("m4".to_string());
    let mut other = votes();
    other.reverse();
    other.push(vote("m3", "m8", -10));
    assert_eq!(plan_pairs(&turned, &other, 7).pairs, plan.pairs);

    // 30 names, 13 joins: 17 components, 16 bridges, and up to 20 random pairs
    assert!(plan.pairs.len() >= 16 && plan.pairs.len() <= 36, "{}", plan.pairs.len());
    let one: Vec<String> = ids(&["a"]);
    assert!(plan_pairs(&one, &vec![], 7).pairs.is_empty());
    assert!(plan_pairs(&vec![], &vec![], 7).pairs.is_empty());
}

#[test]
fn rankings_hold_every_name_and_isolates_come_last() {
    let names = ids(&["x", "a", "y", "b", "c", "x", "d"]);
    let votes = vec![vote("a", "b", 50), vote("c", "d", -50), vote("y", "gone", 50)];
    let scores = vec![bits(&[0.25, 0.75]), bits(&[0.9, 0.1])];
    let ranked = rank_from_comparisons(&names, &votes, &scores);
    assert_eq!(ranked, ids(&["c", "d", "b", "a", "x", "y", "x"]));
}

#[test]
fn projections_keep_one_event_for_each_id() {
    let perception = |id: &str, content: &str| {
        object(vec![("content", text(content)), ("id", text(id)), ("type", text("perception"))])
    };
    let compaction = |kept: &[&str], released: &[&str]| {
        let list = |xs: &[&str]| Json::Array(xs.iter().map(|x| text(x)).collect());
        object(vec![
            ("kept_ids", list(kept)),
            ("released_ids", list(released)),
            ("type", text("compaction")),
        ])
    };
    let vote_event = |a: &str, b: &str, score: i64| {
        object(vec![
            ("type", text("vote")),
            ("vote_a_id", text(a)),
            ("vote_b_id", text(b)),
            ("vote_score", Json::Int(score)),
        ])
    };
    let p = project_json(&vec![
        perception("b", "first"),
        perception("a", "one"),
        perception("b", "second"),
        vote_event("b", "a", 7),
        vote_event("a", "b", 3),
        compaction(&[], &["b"]),
        compaction(&["b", "never"], &["a"]),
    ]);
    let keys = |m: &Json| match m {
        Json::Object(m) => m.iter().map(|(k, _)| k.clone()).collect::<Vec<String>>(),
        other => panic!("{:?}", other),
    };
    assert_eq!(keys(&p.member("all")), ids(&["a", "b"]));
    assert_eq!(keys(&p.member("current")), ids(&["b"]));
    let b = p.member("current").member("b");
    assert!(matches!(b.member("content"), Json::Str(s) if s == "second"));
    assert!(matches!(p.member("memories"), Json::Int(1)));
    assert!(matches!(p.member("count"), Json::Int(7)));
}
