use cybernetics_core::{
    find_ranked_influences, parse_goal, rank_by_leverage, ControlSystemType, Correlation,
    CyberneticObject, EnergyParams, Graph, InfluenceError, RelationType, SteeringGoal,
    SystemClass, MAX_DEPTH, MAX_PATHS, SCALE,
};

fn object(id: &str, name: &str, available_power: i64) -> CyberneticObject {
    CyberneticObject {
        id: id.to_string(),
        name: name.to_string(),
        description: None,
        system_class: SystemClass::AutonomousSystem,
        control_system_type: ControlSystemType::Cognitive,
        energy_params: EnergyParams {
            working_power: 5 * SCALE,
            idle_power: 2 * SCALE,
            available_power,
        },
        power_v: 100 * SCALE,
        quality_a: 800_000,
        mass_c: 10 * SCALE,
        created_at: "2025-01-01T00:00:00Z".to_string(),
    }
}

fn correlation(
    id: &str,
    source: &str,
    target: &str,
    relation_type: RelationType,
    certainty: i64,
    impact: i64,
) -> Correlation {
    Correlation {
        id: id.to_string(),
        source_id: source.to_string(),
        target_id: target.to_string(),
        relation_type,
        certainty_score: certainty,
        impact_factor: impact,
        source_name: None,
        created_at: "2025-01-01T00:00:00Z".to_string(),
    }
}

fn abc() -> (Vec<CyberneticObject>, Vec<Correlation>) {
    let objects = vec![
        object("A", "Alpha", 10 * SCALE),
        object("B", "Beta", 10 * SCALE),
        object("C", "Gamma", 10 * SCALE),
    ];
    let correlations = vec![
        correlation("bc", "B", "C", RelationType::PositiveFeedback, 900_000, 1_200_000),
        correlation("ab", "A", "B", RelationType::PositiveFeedback, 800_000, 1_100_000),
    ];
    (objects, correlations)
}

#[test]
fn test_graph_building() {
    let objects = vec![object("obj1", "Object 1", 3 * SCALE)];
    let correlations = vec![];
    let graph = Graph::new(objects, correlations);
    assert_eq!(graph.object_count(), 1);
}

#[test]
fn duplicate_ids_keep_the_last_object() {
    let objects = vec![object("A", "first", SCALE), object("A", "second", 2 * SCALE), object("B", "Beta", SCALE)];
    let correlations = vec![correlation("ab", "A", "B", RelationType::Supply, SCALE, SCALE)];
    let graph = Graph::new(objects, correlations);
    assert_eq!(graph.object_count(), 2);
    let paths = graph.find_influence_paths("B", &SteeringGoal::Strengthen);
    assert_eq!(paths.len(), 1);
    assert_eq!(paths[0].path_names, vec!["second".to_string(), "Beta".to_string()]);
    let nodes = graph.calculate_node_influences(&paths);
    assert_eq!(nodes.len(), 1);
    assert_eq!(nodes[0].available_power, 2 * SCALE);
}

#[test]
fn end_to_end_chain_of_three() {
    let (objects, correlations) = abc();
    let graph = Graph::new(objects, correlations);
    let paths = graph.find_influence_paths("C", &SteeringGoal::Strengthen);
    assert_eq!(paths.len(), 2);
    assert_eq!(paths[0].path, vec!["B".to_string(), "C".to_string()]);
    assert_eq!(paths[0].path_names, vec!["Beta".to_string(), "Gamma".to_string()]);
    assert_eq!(paths[0].total_strength, 1_200_000);
    assert_eq!(paths[0].certainty_score, 900_000);
    assert_eq!(paths[0].depth, 1);
    assert!(!paths[0].is_feedback_loop);
    assert_eq!(paths[1].path, vec!["A".to_string(), "B".to_string(), "C".to_string()]);
    assert_eq!(paths[1].total_strength, 1_320_000);
    assert_eq!(paths[1].certainty_score, 850_000);
    assert_eq!(paths[1].depth, 2);
    assert_eq!(
        paths[1].feedback_types,
        vec![RelationType::PositiveFeedback, RelationType::PositiveFeedback]
    );

    let nodes = graph.calculate_node_influences(&paths);
    assert_eq!(nodes.len(), 2);
    let b = nodes.iter().find(|n| n.object_id == "B").unwrap();
    assert_eq!(b.path_count, 1);
    assert_eq!(b.object_name, "Beta");
    assert_eq!(b.influence_strength, 1_200_000);
    assert_eq!(b.feedback_multiplier, 1_500_000);
    assert_eq!(b.certainty_score, 900_000);
    assert_eq!(b.control_leverage, 16_200_000);
    let a = nodes.iter().find(|n| n.object_id == "A").unwrap();
    assert_eq!(a.path_count, 1);
    assert_eq!(a.influence_strength, 1_320_000);
    assert_eq!(a.feedback_multiplier, 2_250_000);
    assert_eq!(a.certainty_score, 850_000);
    assert_eq!(a.control_leverage, 25_245_000);
}

#[test]
fn ranked_query_orders_by_leverage() {
    let (objects, correlations) = abc();
    let ranked = find_ranked_influences(objects, correlations, "C", "weaken").unwrap();
    assert_eq!(ranked.len(), 2);
    assert_eq!(ranked[0].object_id, "A");
    assert_eq!(ranked[1].object_id, "B");
    assert!(ranked[0].control_leverage >= ranked[1].control_leverage);
}

#[test]
fn invalid_goal_is_refused() {
    let (objects, correlations) = abc();
    let r = find_ranked_influences(objects, correlations, "C", "sideways");
    assert_eq!(r.unwrap_err(), InfluenceError::InvalidGoal);
    assert_eq!(parse_goal("strengthen"), Some(SteeringGoal::Strengthen));
    assert_eq!(parse_goal("weaken"), Some(SteeringGoal::Weaken));
    assert_eq!(parse_goal("Weaken"), None);
}

#[test]
fn negative_impact_is_pruned_by_signed_comparison() {
    let objects = vec![object("X", "X", SCALE), object("C", "C", SCALE)];
    let correlations = vec![correlation("xc", "X", "C", RelationType::DirectControl, SCALE, -2 * SCALE)];
    let graph = Graph::new(objects, correlations);
    let paths = graph.find_influence_paths("C", &SteeringGoal::Strengthen);
    assert!(paths.is_empty());
}

#[test]
fn weak_influence_is_pruned() {
    let objects = vec![object("X", "X", SCALE), object("Y", "Y", SCALE), object("C", "C", SCALE)];
    let correlations = vec![
        correlation("xc", "X", "C", RelationType::Supply, SCALE, 99_999),
        correlation("yc", "Y", "C", RelationType::Supply, SCALE, 100_000),
    ];
    let graph = Graph::new(objects, correlations);
    let paths = graph.find_influence_paths("C", &SteeringGoal::Strengthen);
    assert_eq!(paths.len(), 1);
    assert_eq!(paths[0].path[0], "Y");
    assert_eq!(paths[0].total_strength, 100_000);
}

#[test]
fn feedback_loop_back_to_target_is_flagged() {
    let objects = vec![object("A", "A", SCALE), object("C", "C", SCALE)];
    let correlations = vec![
        correlation("ac", "A", "C", RelationType::PositiveFeedback, SCALE, SCALE),
        correlation("ca", "C", "A", RelationType::NegativeFeedback, SCALE, SCALE),
    ];
    let graph = Graph::new(objects, correlations);
    let paths = graph.find_influence_paths("C", &SteeringGoal::Strengthen);
    assert_eq!(paths.len(), 2);
    assert!(!paths[0].is_feedback_loop);
    assert_eq!(paths[1].path, vec!["C".to_string(), "A".to_string(), "C".to_string()]);
    assert!(paths[1].is_feedback_loop);
    let nodes = graph.calculate_node_influences(&paths);
    let c = nodes.iter().find(|n| n.object_id == "C").unwrap();
    assert_eq!(c.path_count, 1);
    assert_eq!(c.feedback_multiplier, 1_050_000);
}

#[test]
fn depth_is_capped() {
    let mut objects = Vec::new();
    let mut correlations = Vec::new();
    for i in 0..8 {
        objects.push(object(&format!("n{}", i), "n", SCALE));
    }
    for i in 0..7 {
        correlations.push(correlation("e", &format!("n{}", i), &format!("n{}", i + 1), RelationType::Supply, SCALE, SCALE));
    }
    let graph = Graph::new(objects, correlations);
    let paths = graph.find_influence_paths("n7", &SteeringGoal::Strengthen);
    assert_eq!(paths.len(), MAX_DEPTH);
    for p in &paths {
        assert_eq!(p.depth, p.path.len() - 1);
        assert!(p.depth <= MAX_DEPTH);
        assert_eq!(p.path.last().unwrap(), "n7");
    }
    assert_eq!(paths[4].path[0], "n2");
}

#[test]
fn path_count_is_capped() {
    let mut objects = vec![object("T", "T", SCALE)];
    let mut correlations = Vec::new();
    for i in 0..150 {
        objects.push(object(&format!("s{}", i), "s", SCALE));
        correlations.push(correlation("e", &format!("s{}", i), "T", RelationType::Supply, SCALE, SCALE));
    }
    let graph = Graph::new(objects, correlations);
    let paths = graph.find_influence_paths("T", &SteeringGoal::Strengthen);
    assert_eq!(paths.len(), MAX_PATHS);
    assert_eq!(paths[99].path[0], "s99");
}

#[test]
fn dangling_source_is_named_by_id_and_not_aggregated() {
    let objects = vec![object("C", "Gamma", SCALE)];
    let correlations = vec![correlation("gc", "ghost", "C", RelationType::Supply, SCALE, SCALE)];
    let graph = Graph::new(objects, correlations);
    let paths = graph.find_influence_paths("C", &SteeringGoal::Strengthen);
    assert_eq!(paths.len(), 1);
    assert_eq!(paths[0].path_names, vec!["ghost".to_string(), "Gamma".to_string()]);
    let nodes = graph.calculate_node_influences(&paths);
    assert!(nodes.is_empty());
}

#[test]
fn unknown_target_has_no_paths() {
    let (objects, correlations) = abc();
    let graph = Graph::new(objects, correlations);
    assert!(graph.find_influence_paths("Z", &SteeringGoal::Weaken).is_empty());
}

#[test]
fn no_node_repeats_except_target() {
    let objects = vec![object("A", "A", SCALE), object("B", "B", SCALE), object("C", "C", SCALE)];
    let correlations = vec![
        correlation("ab", "A", "B", RelationType::Supply, SCALE, SCALE),
        correlation("ba", "B", "A", RelationType::Supply, SCALE, SCALE),
        correlation("bc", "B", "C", RelationType::Supply, SCALE, SCALE),
    ];
    let graph = Graph::new(objects, correlations);
    let paths = graph.find_influence_paths("C", &SteeringGoal::Strengthen);
    assert_eq!(paths.len(), 2);
    for p in &paths {
        for i in 0..p.path.len() {
            for j in (i + 1)..p.path.len() {
                assert!(p.path[i] != p.path[j] || p.path[i] == "C");
            }
        }
    }
}

#[test]
fn ranking_is_stable_and_descending() {
    let (objects, correlations) = abc();
    let graph = Graph::new(objects, correlations);
    let paths = graph.find_influence_paths("C", &SteeringGoal::Strengthen);
    let nodes = graph.calculate_node_influences(&paths);
    let ranked = rank_by_leverage(nodes);
    assert_eq!(ranked.len(), 2);
    assert_eq!(ranked[0].control_leverage, 25_245_000);
    assert_eq!(ranked[1].control_leverage, 16_200_000);
}

#[test]
fn paths_come_out_by_depth_and_through_registered_nodes() {
    let objects = vec![object("A", "A", SCALE), object("B", "B", SCALE), object("C", "C", SCALE), object("D", "D", SCALE)];
    let correlations = vec![
        correlation("ab", "A", "B", RelationType::Supply, SCALE, SCALE),
        correlation("bc", "B", "C", RelationType::Supply, SCALE, SCALE),
        correlation("dc", "D", "C", RelationType::Supply, SCALE, SCALE),
        correlation("ad", "A", "D", RelationType::Supply, SCALE, SCALE),
    ];
    let graph = Graph::new(objects, correlations);
    let paths = graph.find_influence_paths("C", &SteeringGoal::Strengthen);
    let depths: Vec<usize> = paths.iter().map(|p| p.depth).collect();
    assert_eq!(depths, vec![1, 1, 2, 2]);
    assert_eq!(paths[2].path, vec!["A".to_string(), "B".to_string(), "C".to_string()]);
    assert_eq!(paths[3].path, vec!["A".to_string(), "D".to_string(), "C".to_string()]);
    let nodes = graph.calculate_node_influences(&paths);
    let total: usize = nodes.iter().map(|n| n.path_count).sum();
    assert_eq!(total, 4);
}

#[test]
fn both_goals_give_the_same_ranking() {
    let (o1, c1) = abc();
    let (o2, c2) = abc();
    let s = find_ranked_influences(o1, c1, "C", "strengthen").unwrap();
    let w = find_ranked_influences(o2, c2, "C", "weaken").unwrap();
    assert_eq!(s.len(), w.len());
    for (x, y) in s.iter().zip(w.iter()) {
        assert_eq!(x.object_id, y.object_id);
        assert_eq!(x.control_leverage, y.control_leverage);
    }
}
