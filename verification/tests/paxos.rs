use preprocessing_mpsi_with_vole::error::Error;
use preprocessing_mpsi_with_vole::field::F128b;
use preprocessing_mpsi_with_vole::hash_utils::hash_f;
use preprocessing_mpsi_with_vole::random::{random_field, random_fields};
use preprocessing_mpsi_with_vole::set_utils::FromU128;
use preprocessing_mpsi_with_vole::solver::gaussian_eliminations::gaussian_elimination;
use preprocessing_mpsi_with_vole::solver::paxos::first_pass::dfs_to_find_constraints;
use preprocessing_mpsi_with_vole::solver::paxos::graph::{CuckooGraph, VisitStatus};
use preprocessing_mpsi_with_vole::solver::paxos::second_pass::dfs_to_calc_vec_l;
use preprocessing_mpsi_with_vole::solver::paxos::{
    adjust_vec_r, construct_cuckoo_graph, hash2index, r, Attempt, PaxosSolver,
    PaxosSolverParams,
};
use preprocessing_mpsi_with_vole::solver::SolverParams;
use rand::rngs::StdRng;
use rand::SeedableRng;

fn create_set(set_size: usize) -> Vec<F128b> {
    let mut rng = StdRng::from_entropy();
    (0..set_size).map(|_| random_field(&mut rng)).collect::<Vec<_>>()
}

fn test_paxos_base(set_size: usize, verbose: bool) {
    let set = create_set(set_size);

    let mut rng = StdRng::from_entropy();
    let aux = PaxosSolver::gen_aux(&mut rng).unwrap();
    let params = PaxosSolver::calc_params(set.len());

    let points = set
        .iter()
        .map(|x| (*x, hash_f(*x).unwrap()))
        .collect::<Vec<_>>();

    let p = PaxosSolver::encode(&mut rng, &points, aux, params).unwrap();

    if verbose {
        println!("p: {:?}", p);
    }

    let reconstructed_ys = set
        .iter()
        .map(|x| PaxosSolver::decode(&p, *x, aux, params).unwrap())
        .collect::<Vec<_>>();

    let ys = points.iter().map(|(_, y)| *y).collect::<Vec<_>>();

    assert_eq!(ys, reconstructed_ys);
}

#[test]
fn test_paxos_small() {
    for n in 1..=10 {
        test_paxos_base(n, true);
    }
}

#[test]
fn paxos_round_trip_at_growing_sizes() {
    for n in 10..100 {
        test_paxos_base(n, false);
    }

    for e in 10..19 {
        let n = 2usize.pow(e);
        test_paxos_base(n, false);
    }
}

#[test]
fn paxos_round_trip_on_many_points() {
    test_paxos_base(1 << 19, false);
}

// Tests of the stages of the encoding, on graphs built by hand and on
// cuckoo graphs of points.

fn graph_analyze(graph: &CuckooGraph, constraints: usize, verbose: bool) -> String {
    if verbose {
        for (i, node) in graph.nodes.iter().enumerate() {
            let dirs = node.dirs.iter().map(|dir| dir.to).collect::<Vec<_>>();
            println!(
                "Node {{ index: {}, id: {}, visit_status: {:?}, dir_to: {:?} }}",
                i, node.id, node.visit_status, dirs
            );
        }
    }
    let back_edges = graph.edges.iter().filter(|e| e.back_edge).count();
    assert_eq!(back_edges, constraints);
    format!(
        "back edge count / edge num = {} / {}\nroot node num = {} / {}\n",
        back_edges,
        graph.edges.len(),
        graph.roots.len(),
        graph.nodes.len()
    )
}

fn empty_graph(params: PaxosSolverParams) -> CuckooGraph {
    CuckooGraph::new(params.l_size(), params.r_size())
}

fn graph_with_nodes(params: PaxosSolverParams, node_num: usize) -> (CuckooGraph, Vec<usize>) {
    // Every node needs a left cell of its own.
    let mut g = CuckooGraph::new(params.l_size().max(node_num), params.r_size());
    let nodes = (0..node_num)
        .map(|i| g.upsert_node(i))
        .collect::<Vec<_>>();
    (g, nodes)
}

fn new_edge(g: &mut CuckooGraph, id: usize, n0: usize, n1: usize) {
    let point = (F128b::from_u128(id as u128), F128b::from_u128(id as u128));
    g.add_edge(n0, n1, point);
}

fn create_specific_graph_empty(params: PaxosSolverParams) -> CuckooGraph {
    empty_graph(params)
}

fn create_specific_graph_no_edge(params: PaxosSolverParams, node_num: usize) -> CuckooGraph {
    graph_with_nodes(params, node_num).0
}

fn create_specific_graph_self_loop(params: PaxosSolverParams, node_num: usize) -> CuckooGraph {
    let (mut g, nodes) = graph_with_nodes(params, node_num);
    for i in 0..node_num {
        new_edge(&mut g, i, nodes[i], nodes[i]);
    }
    g
}

fn create_specific_graph_straight(params: PaxosSolverParams, node_num: usize) -> CuckooGraph {
    let (mut g, nodes) = graph_with_nodes(params, node_num);
    for i in 1..node_num {
        new_edge(&mut g, i - 1, nodes[i - 1], nodes[i]);
    }
    g
}

fn create_specific_graph_discrete_straight(
    params: PaxosSolverParams,
    node_num: usize,
) -> CuckooGraph {
    let (mut g, nodes) = graph_with_nodes(params, node_num);
    for i in 1..node_num {
        if i % 2 == 1 {
            new_edge(&mut g, i - 1, nodes[i - 1], nodes[i]);
        }
    }
    g
}

fn create_specific_graph_straight_with_self_loop(
    params: PaxosSolverParams,
    node_num: usize,
) -> CuckooGraph {
    let (mut g, nodes) = graph_with_nodes(params, node_num.max(1));
    let mut edge_id: usize = 0;
    new_edge(&mut g, edge_id, nodes[0], nodes[0]);
    edge_id += 1;
    for i in 1..node_num {
        new_edge(&mut g, edge_id, nodes[i], nodes[i]);
        edge_id += 1;
        new_edge(&mut g, edge_id, nodes[i - 1], nodes[i]);
        edge_id += 1;
    }
    g
}

fn create_specific_graph_straight_with_back_edges(
    params: PaxosSolverParams,
    node_num: usize,
) -> CuckooGraph {
    let (mut g, nodes) = graph_with_nodes(params, node_num);
    let mut edge_id = 0;
    for i in 1..node_num {
        for _ in 0..2 {
            new_edge(&mut g, edge_id, nodes[i - 1], nodes[i]);
            edge_id += 1;
        }
    }
    g
}

fn create_big_dipper_graph(params: PaxosSolverParams) -> CuckooGraph {
    let (mut g, nodes) = graph_with_nodes(params, 7);
    new_edge(&mut g, 0, nodes[0], nodes[1]);
    new_edge(&mut g, 1, nodes[1], nodes[2]);
    new_edge(&mut g, 2, nodes[2], nodes[3]);
    new_edge(&mut g, 3, nodes[3], nodes[4]);
    new_edge(&mut g, 4, nodes[3], nodes[5]);
    new_edge(&mut g, 5, nodes[5], nodes[6]);
    new_edge(&mut g, 6, nodes[6], nodes[4]);
    g
}

fn create_triangle_graph(params: PaxosSolverParams) -> CuckooGraph {
    let (mut g, nodes) = graph_with_nodes(params, 3);
    new_edge(&mut g, 0, nodes[0], nodes[1]);
    new_edge(&mut g, 1, nodes[1], nodes[2]);
    new_edge(&mut g, 2, nodes[2], nodes[0]);
    g
}

fn f(x: u128) -> F128b {
    F128b::from_u128(x)
}

fn create_double_constraints_graph_0(params: PaxosSolverParams) -> CuckooGraph {
    let (mut g, nodes) = graph_with_nodes(params, 5);
    g.add_edge(nodes[0], nodes[1], (f(0), f(10)));
    g.add_edge(nodes[1], nodes[2], (f(1), f(1).plus(f(2)).plus(f(100))));
    g.add_edge(nodes[1], nodes[3], (f(2), f(1)));
    g.add_edge(nodes[3], nodes[2], (f(3), f(2)));
    g.add_edge(nodes[2], nodes[4], (f(4), f(1)));
    g.add_edge(nodes[4], nodes[1], (f(5), f(2)));
    g
}

fn create_double_constraints_graph_1(params: PaxosSolverParams) -> CuckooGraph {
    let (mut g, nodes) = graph_with_nodes(params, 4);
    g.add_edge(nodes[0], nodes[1], (f(0), f(1).plus(f(2)).plus(f(100))));
    g.add_edge(nodes[0], nodes[2], (f(1), f(1)));
    g.add_edge(nodes[2], nodes[1], (f(2), f(2)));
    g.add_edge(nodes[1], nodes[3], (f(3), f(1)));
    g.add_edge(nodes[3], nodes[0], (f(4), f(2)));
    g
}

fn create_multi_constraints_graph(params: PaxosSolverParams) -> CuckooGraph {
    let (mut g, nodes) = graph_with_nodes(params, 2);
    for i in 0..4 {
        g.add_edge(nodes[0], nodes[1], (f(i), f(10)));
    }
    g
}

fn create_bird_graph(params: PaxosSolverParams) -> CuckooGraph {
    let (mut g, nodes) = graph_with_nodes(params, 8);
    g.add_edge(nodes[0], nodes[2], (f(0), f(3).plus(f(4)).plus(f(100))));
    g.add_edge(nodes[2], nodes[1], (f(1), f(3)));
    g.add_edge(nodes[1], nodes[0], (f(2), f(4)));
    g.add_edge(nodes[2], nodes[3], (f(3), f(10)));
    g.add_edge(nodes[3], nodes[4], (f(4), f(5).plus(f(6)).plus(f(200))));
    g.add_edge(nodes[3], nodes[5], (f(5), f(5)));
    g.add_edge(nodes[3], nodes[6], (f(6), f(6)));
    g.add_edge(nodes[3], nodes[7], (f(7), f(5)));
    g.add_edge(nodes[5], nodes[4], (f(8), f(6)));
    g.add_edge(nodes[6], nodes[4], (f(9), f(5)));
    g.add_edge(nodes[7], nodes[4], (f(10), f(6)));
    g
}

fn fixnum_graphs() -> Vec<fn(PaxosSolverParams) -> CuckooGraph> {
    vec![
        create_specific_graph_empty,
        create_big_dipper_graph,
        create_triangle_graph,
        create_double_constraints_graph_0,
        create_double_constraints_graph_1,
        create_multi_constraints_graph,
        create_bird_graph,
    ]
}

fn specific_graphs() -> Vec<fn(PaxosSolverParams, usize) -> CuckooGraph> {
    vec![
        create_specific_graph_no_edge,
        create_specific_graph_self_loop,
        create_specific_graph_straight,
        create_specific_graph_discrete_straight,
        create_specific_graph_straight_with_self_loop,
        create_specific_graph_straight_with_back_edges,
    ]
}

fn number_points(n: usize) -> Vec<(F128b, F128b)> {
    (0..n)
        .map(|i| (F128b::from_u128(i as _), F128b::from_u128(i as _)))
        .collect::<Vec<(F128b, F128b)>>()
}

fn test_construct_cuckoo_graph_base(n: usize, verbose: bool) {
    let mut rng = StdRng::from_entropy();
    let aux = PaxosSolver::gen_aux(&mut rng).unwrap();
    let params = PaxosSolver::calc_params(n);

    let points = number_points(n);

    let mut graph = construct_cuckoo_graph(&points, aux, params);
    assert_eq!(graph.edges.len(), n);
    for (k, e) in graph.edges.iter().enumerate() {
        assert_eq!(e.point, points[k]);
        assert_eq!(graph.nodes[e.u].id, hash2index(aux.0, points[k].0, params.l_size()));
        assert_eq!(graph.nodes[e.v].id, hash2index(aux.1, points[k].0, params.l_size()));
    }

    let constraints = dfs_to_find_constraints(&mut graph, aux, params);
    let analyzed_result = graph_analyze(&graph, constraints.len(), verbose);

    println!("analyzed_result:\n{}", analyzed_result);
}

#[test]
fn test_construct_cuckoo_graph_small() {
    for n in 0..=10 {
        test_construct_cuckoo_graph_base(n, true);
    }
}

#[test]
fn cuckoo_graphs_at_growing_sizes() {
    for n in 10..100 {
        test_construct_cuckoo_graph_base(n, false);
    }

    for e in 10..20 {
        let n = 2usize.pow(e);
        test_construct_cuckoo_graph_base(n, false);
    }
}

#[test]
fn test_construct_cuckoo_graph_2e20() {
    test_construct_cuckoo_graph_base(1 << 20, false);
}

#[test]
fn test_find_constraints_for_fixnum_graphs() {
    let mut rng = StdRng::from_entropy();
    let aux = PaxosSolver::gen_aux(&mut rng).unwrap();
    let params = PaxosSolver::calc_params(20);

    let verbose = true;

    for func in fixnum_graphs().into_iter() {
        println!("\n####################################\n");

        let mut graph = func(params);

        let constraints = dfs_to_find_constraints(&mut graph, aux, params);

        let analyzed_result = graph_analyze(&graph, constraints.len(), verbose);

        println!("analyzed_result:\n{}", analyzed_result);

        println!("constraints ({}):", constraints.len());

        for cons in constraints.into_iter() {
            println!("{:?}", cons);
        }
    }
}

fn test_find_constraints_for_specific_graphs_base(n: usize, verbose: bool) {
    let mut rng = StdRng::from_entropy();
    let aux = PaxosSolver::gen_aux(&mut rng).unwrap();
    let params = PaxosSolver::calc_params(2 * n);

    for func in specific_graphs().into_iter() {
        println!("\n####################################\n");

        let mut graph = func(params, n);

        let constraints = dfs_to_find_constraints(&mut graph, aux, params);

        let analyzed_result = graph_analyze(&graph, constraints.len(), verbose);

        println!("analyzed_result:\n{}", analyzed_result);

        println!("constraints ({}):", constraints.len());

        if verbose {
            for cons in constraints.into_iter() {
                println!("{:?}", cons);
            }
        }
    }
}

#[test]
fn test_find_constraints_for_specific_graphs_small() {
    for n in 0..=10 {
        println!(
            "\n%%%%%%%%%%%%%%%%%%%%%%%%%%%%%%%% {} %%%%%%%%%%%%%%%%%%%%%%%%%%%%%%%%\n",
            n
        );
        test_find_constraints_for_specific_graphs_base(n, true);
    }
}

fn test_find_constraints_base(n: usize, verbose: bool) {
    let mut rng = StdRng::from_entropy();
    let aux = PaxosSolver::gen_aux(&mut rng).unwrap();
    let params = PaxosSolver::calc_params(n);

    let points = number_points(n);

    let mut graph = construct_cuckoo_graph(&points, aux, params);

    let constraints = dfs_to_find_constraints(&mut graph, aux, params);

    println!("constraints ({}):", constraints.len());

    for node in graph.nodes.iter() {
        assert_eq!(node.visit_status, VisitStatus::VisitedOnce);
    }
    for edge in graph.edges.iter() {
        assert_eq!(edge.visit_status, VisitStatus::VisitedOnce);
    }
    // A forest has one edge less than nodes in every tree.
    let back_edges = graph.edges.iter().filter(|e| e.back_edge).count();
    assert_eq!(back_edges, constraints.len());
    assert_eq!(
        graph.edges.len() - back_edges + graph.roots.len(),
        graph.nodes.len()
    );

    if verbose {
        for cons in constraints.into_iter() {
            println!("{:?}", cons);
        }
    }
}

#[test]
fn test_find_constraints_small() {
    for n in 0..=10 {
        test_find_constraints_base(n, true);
    }
}

#[test]
fn constraints_at_growing_sizes() {
    for n in 10..100 {
        test_find_constraints_base(n, false);
    }

    for e in 10..20 {
        let n = 2usize.pow(e);
        test_find_constraints_base(n, false);
    }
}

#[test]
fn test_find_constraints_2e20() {
    test_find_constraints_base(1 << 20, false);
}

// Runs the stages after the graph on `graph`. `None` if the constraints
// cannot be solved.
fn solve_on_graph(
    graph: &mut CuckooGraph,
    aux: (u64, u64, u64),
    params: PaxosSolverParams,
    rng: &mut StdRng,
    verbose: bool,
) -> Option<Vec<F128b>> {
    let mut vec_l: Vec<F128b> = random_fields(rng, graph.l_size);
    let mut vec_r: Vec<F128b> = random_fields(rng, params.r_size());

    let constraints = dfs_to_find_constraints(graph, aux, params);

    println!("constraints ({}):", constraints.len());

    if verbose {
        for cons in constraints.iter() {
            println!("{:?}", cons);
        }
    }

    if constraints.len() > params.r_size() {
        panic!("too many constraints");
    }

    if constraints.len() > 0 {
        let equations_w = match gaussian_elimination(constraints) {
            Ok(equs) => equs,
            Err(e) => {
                println!("gaussian elimination Error: {:?}", e);
                return None;
            }
        };
        let Some(equations) = equations_w else {
            println!("failed to solve linear equations");
            return None;
        };

        adjust_vec_r(&equations, &mut vec_r);
    } else {
        println!("no constraints");
    }

    dfs_to_calc_vec_l(graph, aux, params, &vec_r, &mut vec_l);

    let mut result = vec_l;
    result.extend(vec_r);

    if verbose {
        println!("result (len: {}): {:?}", result.len(), result);
    }

    // Every edge decodes to the value of its point.
    let l_size = graph.l_size;
    for e in graph.edges.iter() {
        let bits = r(aux.2, e.point.0, params.r_size());
        let mut y = result[graph.nodes[e.u].id].plus(result[graph.nodes[e.v].id]);
        for (i, b) in bits.iter().enumerate() {
            if *b {
                y = y.plus(result[l_size + i]);
            }
        }
        assert_eq!(y, e.point.1);
    }

    Some(result)
}

#[test]
fn test_dfs_to_calc_vec_l_for_fixnum_graphs() {
    let mut rng = StdRng::from_entropy();
    let aux = PaxosSolver::gen_aux(&mut rng).unwrap();
    let params = PaxosSolver::calc_params(20);

    for func in fixnum_graphs().into_iter() {
        println!("\n####################################\n");

        let mut graph = func(params);

        let _ = solve_on_graph(&mut graph, aux, params, &mut rng, true);
    }
}

fn test_dfs_to_calc_vec_l_for_specific_graphs_base(n: usize, verbose: bool) {
    let mut rng = StdRng::from_entropy();
    let aux = PaxosSolver::gen_aux(&mut rng).unwrap();
    let params = PaxosSolver::calc_params(2 * n);

    for func in specific_graphs().into_iter() {
        println!("\n####################################\n");

        let mut graph = func(params, n);

        let _ = solve_on_graph(&mut graph, aux, params, &mut rng, verbose);
    }
}

#[test]
fn test_dfs_to_calc_vec_l_for_specific_graphs_small() {
    for n in 0..=10 {
        println!(
            "\n%%%%%%%%%%%%%%%%%%%%%%%%%%%%%%%% {} %%%%%%%%%%%%%%%%%%%%%%%%%%%%%%%%\n",
            n
        );
        test_dfs_to_calc_vec_l_for_specific_graphs_base(n, true);
    }
}

fn test_dfs_to_calc_vec_l_base(n: usize, verbose: bool) {
    let mut rng = StdRng::from_entropy();
    let aux = PaxosSolver::gen_aux(&mut rng).unwrap();
    let params = PaxosSolver::calc_params(n);

    let points = number_points(n);

    let mut graph = construct_cuckoo_graph(&points, aux, params);

    let Some(result) = solve_on_graph(&mut graph, aux, params, &mut rng, verbose) else {
        panic!("failed to solve linear equations");
    };

    for (x, y) in points.iter() {
        let reconstructed_y = PaxosSolver::decode(&result, *x, aux, params).unwrap();

        assert_eq!(*y, reconstructed_y);
    }
}

#[test]
fn test_dfs_to_calc_vec_l_small() {
    for n in 1..=10 {
        test_dfs_to_calc_vec_l_base(n, true);
    }
}

#[test]
fn left_parts_at_growing_sizes() {
    for n in 10..100 {
        test_dfs_to_calc_vec_l_base(n, false);
    }

    for e in 10..19 {
        let n = 2usize.pow(e);
        test_dfs_to_calc_vec_l_base(n, false);
    }
}

#[test]
fn left_parts_on_many_points() {
    test_dfs_to_calc_vec_l_base(1 << 19, false);
}

#[test]
fn code_length_formula() {
    // L = 2n + floor(n / 100), R = ceil(log2 n) + 40
    let cases = [
        (0usize, 0usize, 40usize),
        (1, 2, 40),
        (2, 4, 41),
        (3, 6, 42),
        (10, 20, 44),
        (100, 201, 47),
        (1024, 2058, 50),
        (1025, 2060, 51),
        (1 << 20, 2 * (1 << 20) + 10485, 60),
    ];
    for (n, l, r) in cases {
        let params = PaxosSolver::calc_params(n);
        assert_eq!(params.l_size(), l);
        assert_eq!(params.r_size(), r);
        assert_eq!(params.code_length(), l + r);
    }
    // The code vector for 2^20 elements has at least 2 * 2^20 + 60 cells.
    assert!(PaxosSolver::calc_params(1 << 20).code_length() >= 2 * (1 << 20) + 60);
}

#[test]
fn keyed_hashes_known_answers() {
    assert_eq!(hash2index(7, F128b(5), 1000), 728);
    assert_eq!(hash2index(7, F128b(5), 1), 0);
    assert_eq!(
        r(7, F128b(5), 12),
        vec![true, true, true, false, false, true, false, true, true, true, false, true]
    );
    assert_eq!(r(7, F128b(5), 0), Vec::<bool>::new());
    // A digest has 256 bits.
    assert_eq!(r(7, F128b(5), 300).len(), 256);
}

#[test]
fn encode_length_and_round_trip() {
    let mut rng = StdRng::seed_from_u64(3);
    let params = PaxosSolver::calc_params(50);
    let points = (0..50u128)
        .map(|i| (F128b(i + 1000), F128b(i * i + 7)))
        .collect::<Vec<_>>();
    let (aux, p) = PaxosSolver::encode_with_retry(&mut rng, &points, params).unwrap();
    assert_eq!(p.len(), params.code_length());
    for (x, y) in points.iter() {
        assert_eq!(PaxosSolver::decode(&p, *x, aux, params), Ok(*y));
    }
}

#[test]
fn encode_of_no_points_is_the_sample() {
    let params = PaxosSolver::calc_params(0);
    let vec_l: Vec<F128b> = vec![];
    let vec_r: Vec<F128b> = (0..40u128).map(F128b).collect();
    let p = PaxosSolver::encode_from(&[], (1, 2, 3), params, vec_l, vec_r.clone()).unwrap();
    assert_eq!(p, vec_r);
    // Without a left cell nothing can be decoded.
    assert_eq!(
        PaxosSolver::decode(&p, F128b(1), (1, 2, 3), params),
        Err(Error::InvariantViolation)
    );
}

#[test]
fn encode_is_determined_by_its_inputs() {
    let params = PaxosSolver::calc_params(30);
    let points = (0..30u128)
        .map(|i| (F128b(3 * i + 1), F128b(i ^ 0x55)))
        .collect::<Vec<_>>();
    let mut rng = StdRng::seed_from_u64(9);
    let vec_l = random_fields(&mut rng, params.l_size());
    let vec_r = random_fields(&mut rng, params.r_size());
    let aux = (11, 22, 33);
    let first = PaxosSolver::encode_from(&points, aux, params, vec_l.clone(), vec_r.clone());
    let second = PaxosSolver::encode_from(&points, aux, params, vec_l, vec_r);
    assert_eq!(first, second);

    let mut rng_a = StdRng::seed_from_u64(77);
    let mut rng_b = StdRng::seed_from_u64(77);
    assert_eq!(
        PaxosSolver::encode(&mut rng_a, &points, aux, params),
        PaxosSolver::encode(&mut rng_b, &points, aux, params)
    );
}

#[test]
fn encode_refuses_wrong_lengths() {
    let params = PaxosSolver::calc_params(4);
    let points = number_points(4);
    let vec_l = vec![F128b(0); params.l_size()];
    let vec_r = vec![F128b(0); params.r_size()];
    assert_eq!(
        PaxosSolver::encode_from(&points, (1, 2, 3), params, vec_l[1..].to_vec(), vec_r.clone()),
        Err(Error::InvariantViolation)
    );
    assert_eq!(
        PaxosSolver::encode_from(&points, (1, 2, 3), params, vec_l.clone(), vec_r[1..].to_vec()),
        Err(Error::InvariantViolation)
    );
    assert_eq!(
        PaxosSolver::decode(&vec_l, F128b(1), (1, 2, 3), params),
        Err(Error::InvariantViolation)
    );
    // One point cannot be encoded where there is no left cell.
    let none = PaxosSolver::calc_params(0);
    assert_eq!(
        PaxosSolver::encode_from(&points[..1], (1, 2, 3), none, vec![], vec![F128b(0); 40]),
        Err(Error::InvariantViolation)
    );
}

#[test]
fn a_point_given_twice_has_no_solution() {
    let params = PaxosSolver::calc_params(2);
    let points = vec![(F128b(9), F128b(1)), (F128b(9), F128b(2))];
    let vec_l = vec![F128b(0); params.l_size()];
    let vec_r = vec![F128b(0); params.r_size()];
    assert_eq!(
        PaxosSolver::encode_from(&points, (1, 2, 3), params, vec_l, vec_r),
        Err(Error::SolverNoSolution)
    );
}

// Seeds under which both hashes send `x` to one left cell.
fn self_loop_seeds(x: F128b, l_size: usize) -> (u64, u64, u64) {
    for k1 in 0..1000u64 {
        for k2 in 0..1000u64 {
            if hash2index(k1, x, l_size) == hash2index(k2, x, l_size) {
                return (k1, k2, 5);
            }
        }
    }
    panic!("no seeds found");
}

#[test]
fn self_loops_decode() {
    let params = PaxosSolver::calc_params(3);
    let points = vec![
        (F128b(100), F128b(7)),
        (F128b(200), F128b(8)),
        (F128b(300), F128b(9)),
    ];
    let aux = self_loop_seeds(points[0].0, params.l_size());
    assert_eq!(
        hash2index(aux.0, points[0].0, params.l_size()),
        hash2index(aux.1, points[0].0, params.l_size())
    );
    let mut rng = StdRng::seed_from_u64(21);
    let p = PaxosSolver::encode(&mut rng, &points, aux, params).unwrap();
    for (x, y) in points.iter() {
        assert_eq!(PaxosSolver::decode(&p, *x, aux, params), Ok(*y));
    }
}

#[test]
fn decode_follows_the_rule() {
    let params = PaxosSolver::calc_params(10);
    let aux = (3, 5, 7);
    let p = (0..params.code_length() as u128)
        .map(|i| F128b(i * i + 1))
        .collect::<Vec<_>>();
    for x in [F128b(0), F128b(1), F128b(u128::MAX)] {
        let i = hash2index(aux.0, x, params.l_size());
        let j = hash2index(aux.1, x, params.l_size());
        let mut y = p[i].plus(p[j]);
        for (b, bit) in r(aux.2, x, params.r_size()).iter().enumerate() {
            if *bit {
                y = y.plus(p[params.l_size() + b]);
            }
        }
        assert_eq!(PaxosSolver::decode(&p, x, aux, params), Ok(y));
    }
}

#[test]
fn many_copies_of_a_point_are_too_many_constraints() {
    // Fifty edges between the same two cells leave forty-nine back edges,
    // more than the forty-six right cells.
    let params = PaxosSolver::calc_params(50);
    assert_eq!(params.r_size(), 46);
    let points = vec![(F128b(9), F128b(1)); 50];
    let vec_l = vec![F128b(0); params.l_size()];
    let vec_r = vec![F128b(0); params.r_size()];
    assert_eq!(
        PaxosSolver::encode_from(&points, (1, 2, 3), params, vec_l, vec_r),
        Err(Error::SolverTooManyConstraints)
    );
}

#[test]
fn untouched_cells_keep_their_samples() {
    let params = PaxosSolver::calc_params(5);
    let points = number_points(5);
    let aux = (4, 5, 6);
    let mut rng = StdRng::seed_from_u64(17);
    let vec_l = random_fields(&mut rng, params.l_size());
    let vec_r = random_fields(&mut rng, params.r_size());
    let p = PaxosSolver::encode_from(&points, aux, params, vec_l.clone(), vec_r).unwrap();
    let mut hit = vec![false; params.l_size()];
    for (x, _) in points.iter() {
        hit[hash2index(aux.0, *x, params.l_size())] = true;
        hit[hash2index(aux.1, *x, params.l_size())] = true;
    }
    for i in 0..params.l_size() {
        if !hit[i] {
            assert_eq!(p[i], vec_l[i]);
        }
    }
}

fn attempt(seed: u64, aux: (u64, u64, u64), l_len: usize, r_len: usize) -> Attempt {
    let mut rng = StdRng::seed_from_u64(seed);
    Attempt {
        aux,
        vec_l: random_fields(&mut rng, l_len),
        vec_r: random_fields(&mut rng, r_len),
    }
}

#[test]
fn the_first_attempt_is_taken_if_it_encodes() {
    let params = PaxosSolver::calc_params(6);
    let points = number_points(6);
    let (l, r) = (params.l_size(), params.r_size());
    let first = attempt(1, (1, 2, 3), l, r);
    let alone = PaxosSolver::encode_from(
        &points,
        first.aux,
        params,
        first.vec_l.clone(),
        first.vec_r.clone(),
    )
    .unwrap();
    let (aux, p) =
        PaxosSolver::encode_from_either(&points, params, first, attempt(2, (4, 5, 6), l, r))
            .unwrap();
    assert_eq!(aux, (1, 2, 3));
    assert_eq!(p, alone);
}

#[test]
fn the_second_attempt_is_taken_if_the_first_fails() {
    let params = PaxosSolver::calc_params(6);
    let points = number_points(6);
    let (l, r) = (params.l_size(), params.r_size());
    // Parts of another length cannot be encoded into.
    let first = attempt(1, (1, 2, 3), l - 1, r);
    let second = attempt(2, (4, 5, 6), l, r);
    let alone = PaxosSolver::encode_from(
        &points,
        second.aux,
        params,
        second.vec_l.clone(),
        second.vec_r.clone(),
    )
    .unwrap();
    let (aux, p) = PaxosSolver::encode_from_either(&points, params, first, second).unwrap();
    assert_eq!(aux, (4, 5, 6));
    assert_eq!(p, alone);
    for (x, y) in points.iter() {
        assert_eq!(PaxosSolver::decode(&p, *x, aux, params), Ok(*y));
    }
}

#[test]
fn two_failed_attempts_give_the_error_of_the_second() {
    let params = PaxosSolver::calc_params(2);
    let twice = vec![(F128b(9), F128b(1)), (F128b(9), F128b(2))];
    let (l, r) = (params.l_size(), params.r_size());
    assert_eq!(
        PaxosSolver::encode_from_either(
            &twice,
            params,
            attempt(1, (1, 2, 3), l, r),
            attempt(2, (4, 5, 6), l, r)
        ),
        Err(Error::SolverNoSolution)
    );
    assert_eq!(
        PaxosSolver::encode_from_either(
            &twice,
            params,
            attempt(1, (1, 2, 3), l, r),
            attempt(2, (4, 5, 6), l, r + 1)
        ),
        Err(Error::InvariantViolation)
    );
    assert_eq!(
        PaxosSolver::encode_from_either(
            &twice,
            params,
            attempt(1, (1, 2, 3), l, r + 1),
            attempt(2, (4, 5, 6), l, r)
        ),
        Err(Error::SolverNoSolution)
    );

    // Too many constraints are tried again as well, and found again.
    let params = PaxosSolver::calc_params(50);
    let copies = vec![(F128b(9), F128b(1)); 50];
    let (l, r) = (params.l_size(), params.r_size());
    assert_eq!(
        PaxosSolver::encode_from_either(
            &copies,
            params,
            attempt(1, (1, 2, 3), l, r),
            attempt(2, (4, 5, 6), l, r)
        ),
        Err(Error::SolverTooManyConstraints)
    );
    let mut rng = StdRng::seed_from_u64(3);
    assert_eq!(
        PaxosSolver::encode_with_retry(&mut rng, &copies, params),
        Err(Error::SolverTooManyConstraints)
    );
}

#[test]
fn an_attempt_is_drawn_with_the_lengths_of_the_parameters() {
    let params = PaxosSolver::calc_params(9);
    let mut rng = StdRng::seed_from_u64(4);
    let first = PaxosSolver::draw(&mut rng, params);
    let second = PaxosSolver::draw(&mut rng, params);
    assert_eq!(first.vec_l.len(), params.l_size());
    assert_eq!(first.vec_r.len(), params.r_size());
    assert_ne!(first.aux, second.aux);
    assert_ne!(first.vec_l, second.vec_l);
}

#[test]
fn a_longer_vector_decodes_by_its_first_cells() {
    let params = PaxosSolver::calc_params(7);
    let points = number_points(7);
    let mut rng = StdRng::seed_from_u64(23);
    let aux = PaxosSolver::gen_aux(&mut rng).unwrap();
    let p = PaxosSolver::encode(&mut rng, &points, aux, params).unwrap();
    let mut longer = p.clone();
    longer.extend(random_fields(&mut rng, 5));
    for (x, y) in points.iter() {
        assert_eq!(PaxosSolver::decode(&longer, *x, aux, params), Ok(*y));
    }
    // A shorter one is refused.
    assert_eq!(
        PaxosSolver::decode(&p[..p.len() - 1], points[0].0, aux, params),
        Err(Error::InvariantViolation)
    );
}
