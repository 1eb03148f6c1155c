use overlay_core::geom::{IntPoint, IntVec};
use overlay_core::layout::overlay_graph::OverlayGraph;
use overlay_core::segment::{Segment, XSegment, SUBJ_BOTTOM, SUBJ_TOP, CLIP_BOTTOM, CLIP_TOP};
use overlay_core::split::cross_solver::{cross_segments, LineMark};
use overlay_core::split::solver::{SplitSolver, Strategy};
use overlay_core::split::solver_tree::ver_range;
use overlay_core::index::EMPTY_INDEX;
use overlay_core::geom::triangle_is_clockwise;
use overlay_core::split::space_layout::SpaceLayout;

fn p(x: i32, y: i32) -> IntPoint {
    IntPoint::new(x, y)
}

fn seg(ax: i32, ay: i32, bx: i32, by: i32) -> Segment {
    Segment { x_segment: XSegment { a: p(ax, ay), b: p(bx, by) }, fill: 0 }
}

fn solver(strategy: Strategy) -> SplitSolver {
    SplitSolver { strategy, chunk_start_length: 4, chunk_list_max_size: 128 }
}

/// The four sides of the axis square, each with endpoints in key order
/// and the bag ordered by the `a` endpoints.
fn square() -> Vec<Segment> {
    vec![
        seg(-10, -10, 10, -10),
        seg(-10, -10, -10, 10),
        seg(10, -10, 10, 10),
        seg(-10, 10, 10, 10),
    ]
}

#[test]
fn test_point_key_orders_by_y_then_x() {
    assert!(p(1, 0).bit_pack() < p(0, 1).bit_pack());
    assert!(p(0, 0).bit_pack() < p(1, 0).bit_pack());
    assert!(p(-5, -7).bit_pack() < p(-4, -7).bit_pack());
    assert!(p(100, -7).bit_pack() < p(-100, -6).bit_pack());
    assert_eq!(p(3, 4).bit_pack(), p(3, 4).bit_pack());
    assert_ne!(p(3, 4).bit_pack(), p(4, 3).bit_pack());
}

#[test]
fn test_triangle_orientation() {
    // counter-clockwise triangle
    assert!(!triangle_is_clockwise(p(0, 0), p(10, 0), p(0, 10)));
    // clockwise triangle
    assert!(triangle_is_clockwise(p(0, 0), p(0, 10), p(10, 0)));
    // collinear
    assert!(!triangle_is_clockwise(p(0, 0), p(5, 5), p(10, 10)));
}

#[test]
fn test_closer_in_rotation() {
    let v = IntVec { x: 1, y: 0 };
    let up = IntVec { x: 0, y: 1 };
    let down = IntVec { x: 0, y: -1 };
    assert!(!v.is_closer_in_rotation_to(up, down));
    assert!(v.is_closer_in_rotation_to(down, up));
}

#[test]
fn test_xnor_and_is_clockwise() {
    assert!(OverlayGraph::xnor(true, true));
    assert!(OverlayGraph::xnor(false, false));
    assert!(!OverlayGraph::xnor(true, false));
    assert!(!OverlayGraph::xnor(false, true));

    // direct order and top inside agree
    assert!(OverlayGraph::is_clockwise(p(0, 0), p(10, 0), true));
    assert!(!OverlayGraph::is_clockwise(p(0, 0), p(10, 0), false));
    assert!(!OverlayGraph::is_clockwise(p(10, 0), p(0, 0), true));
    assert!(OverlayGraph::is_clockwise(p(10, 0), p(0, 0), false));
}

#[test]
fn test_graph_square_structure() {
    let graph = OverlayGraph::new(square());
    assert_eq!(graph.links().len(), 4);
    assert_eq!(graph.nodes().len(), 4);
    for node in graph.nodes().iter() {
        assert_eq!(node.indices.len(), 2);
    }
}

#[test]
fn test_graph_links_listed_at_their_nodes() {
    let graph = OverlayGraph::new(square());
    let links = graph.links();
    let nodes = graph.nodes();
    for (i, link) in links.iter().enumerate() {
        assert!(link.a.index < nodes.len());
        assert!(link.b.index < nodes.len());
        assert_ne!(link.a.index, link.b.index);
        assert!(nodes[link.a.index].indices.contains(&i));
        assert!(nodes[link.b.index].indices.contains(&i));
    }
    for (n0, node) in nodes.iter().enumerate() {
        let mut shared: Option<IntPoint> = None;
        for &j in node.indices.iter() {
            assert!(j < links.len());
            assert!(links[j].a.index == n0 || links[j].b.index == n0);
            let at = if links[j].a.index == n0 {
                links[j].a.point
            } else {
                links[j].b.point
            };
            match shared {
                None => shared = Some(at),
                Some(q) => assert_eq!(q, at),
            }
        }
    }
}

#[test]
fn test_graph_build_is_deterministic() {
    let g1 = OverlayGraph::new(square());
    let g2 = OverlayGraph::new(square());
    assert_eq!(g1.links(), g2.links());
    assert_eq!(g1.nodes().len(), g2.nodes().len());
    for (n1, n2) in g1.nodes().iter().zip(g2.nodes().iter()) {
        assert_eq!(n1.indices, n2.indices);
    }
}

#[test]
fn test_graph_keeps_fill_and_points() {
    let mut segs = square();
    segs[0].fill = SUBJ_BOTTOM;
    segs[1].fill = SUBJ_TOP | CLIP_BOTTOM;
    segs[2].fill = CLIP_TOP;
    segs[3].fill = SUBJ_BOTTOM | SUBJ_TOP | CLIP_BOTTOM | CLIP_TOP;
    let expect: Vec<Segment> = segs.clone();
    let graph = OverlayGraph::new(segs);
    for (i, link) in graph.links().iter().enumerate() {
        assert_eq!(link.fill, expect[i].fill);
        assert_eq!(link.a.point, expect[i].x_segment.a);
        assert_eq!(link.b.point, expect[i].x_segment.b);
    }
}

#[test]
fn test_find_first_link_picks_unvisited() {
    let graph = OverlayGraph::new(square());
    let visited = vec![false; graph.links().len()];
    let j = graph.find_first_link(0, &visited);
    assert!(j != EMPTY_INDEX);
    assert!(graph.nodes()[0].indices.contains(&j));

    let all_visited = vec![true; graph.links().len()];
    assert_eq!(graph.find_first_link(0, &all_visited), EMPTY_INDEX);
}

#[test]
fn test_find_nearest_link_walks_the_square() {
    let graph = OverlayGraph::new(square());
    let visited = vec![false; graph.links().len()];
    let start = graph.find_first_link(0, &visited);
    assert!(start != EMPTY_INDEX);
    let link = &graph.links()[start];
    let next = graph.find_nearest_link_to(link.a, link.b, start, true, &visited);
    assert!(next != EMPTY_INDEX);
    assert!(next != start);
    let node = &graph.nodes()[link.b.index];
    assert!(node.indices.contains(&next));
}

#[test]
fn test_cross_marks_proper_crossing() {
    let s1 = seg(-10, 0, 10, 0).x_segment;
    let s2 = seg(0, -10, 0, 10).x_segment;
    let mut marks: Vec<LineMark> = Vec::new();
    let rounded = cross_segments(0, 1, s1, s2, &mut marks);
    assert!(!rounded);
    assert_eq!(marks.len(), 2);
    for m in marks.iter() {
        assert_eq!(m.point, p(0, 0));
    }
    assert!(marks.iter().any(|m| m.index == 0));
    assert!(marks.iter().any(|m| m.index == 1));
}

#[test]
fn test_cross_marks_end_on_edge() {
    // s2 starts on the interior of s1
    let s1 = seg(-10, 0, 10, 0).x_segment;
    let s2 = seg(0, 0, 5, 7).x_segment;
    let mut marks: Vec<LineMark> = Vec::new();
    cross_segments(0, 1, s1, s2, &mut marks);
    assert_eq!(marks.len(), 1);
    assert_eq!(marks[0].index, 0);
    assert_eq!(marks[0].point, p(0, 0));
}

#[test]
fn test_cross_marks_nothing_for_disjoint_or_touching() {
    let s1 = seg(-10, 0, 10, 0).x_segment;
    let far = seg(-10, 5, 10, 5).x_segment;
    let mut marks: Vec<LineMark> = Vec::new();
    cross_segments(0, 1, s1, far, &mut marks);
    assert_eq!(marks.len(), 0);

    // sharing an endpoint is not a crossing
    let touch = seg(10, 0, 20, 9).x_segment;
    cross_segments(0, 1, s1, touch, &mut marks);
    assert_eq!(marks.len(), 0);
}

#[test]
fn test_list_split_resolves_plus_sign() {
    let mut edges = vec![seg(-10, 0, 10, 0), seg(0, -10, 0, 10)];
    let converged = solver(Strategy::List).split(&mut edges);
    assert!(converged);
    assert_eq!(edges.len(), 4);
    let center = p(0, 0);
    for e in edges.iter() {
        assert!(e.x_segment.a == center || e.x_segment.b == center);
    }
}

#[test]
fn test_split_is_stable() {
    let mut edges = vec![seg(-10, 0, 10, 0), seg(0, -10, 0, 10)];
    solver(Strategy::List).split(&mut edges);
    let once = edges.clone();
    let converged = solver(Strategy::List).split(&mut edges);
    assert!(converged);
    assert_eq!(once, edges);
}

#[test]
fn test_tree_split_is_stable() {
    let mut edges = grid();
    let converged = solver(Strategy::Tree).split(&mut edges);
    assert!(converged);
    let once = edges.clone();
    let again = solver(Strategy::Tree).split(&mut edges);
    assert!(again);
    assert_eq!(once, edges);
}

#[test]
fn test_disjoint_bags_pass_through_unchanged() {
    // two disjoint squares: already crossing-free, every strategy is a no-op
    let mut edges = square();
    let mut far = square();
    for e in far.iter_mut() {
        e.x_segment.a.x += 1000;
        e.x_segment.b.x += 1000;
    }
    edges.extend(far);
    let mut list_edges = edges.clone();
    let mut tree_edges = edges.clone();
    assert!(solver(Strategy::List).split(&mut list_edges));
    assert!(solver(Strategy::Tree).split(&mut tree_edges));
    assert_eq!(list_edges.len(), 8);
    assert_eq!(tree_edges.len(), 8);
    assert_eq!(list_edges, tree_edges);
}

#[test]
fn test_split_collinear_overlap() {
    let mut edges = vec![seg(0, 0, 0, 10), seg(0, 5, 0, 15)];
    let converged = solver(Strategy::List).split(&mut edges);
    assert!(converged);
    assert_eq!(edges.len(), 4);
    for e in edges.iter() {
        assert!(e.x_segment.a.bit_pack() < e.x_segment.b.bit_pack());
    }
}

#[test]
fn test_split_empty_bag() {
    let mut edges: Vec<Segment> = Vec::new();
    assert!(solver(Strategy::List).split(&mut edges));
    assert_eq!(edges.len(), 0);
    let mut edges2: Vec<Segment> = Vec::new();
    assert!(solver(Strategy::Tree).split(&mut edges2));
    assert_eq!(edges2.len(), 0);
}

fn grid() -> Vec<Segment> {
    let mut edges = Vec::new();
    let mut k = -20;
    while k <= 20 {
        edges.push(seg(-50, k, 50, k));
        edges.push(seg(k, -50, k, 50));
        k += 10;
    }
    edges
}

#[test]
fn test_list_and_tree_agree_on_grid() {
    let mut list_edges = grid();
    let mut tree_edges = grid();
    let converged = solver(Strategy::List).split(&mut list_edges);
    assert!(converged);
    let tree_converged = solver(Strategy::Tree).split(&mut tree_edges);
    assert!(tree_converged);
    // both leave the bag sorted by the `a` key, so equal bags align
    assert_eq!(list_edges.len(), tree_edges.len());
    for (a, b) in list_edges.iter().zip(tree_edges.iter()) {
        assert_eq!(a, b);
    }
    // five cuts split each of the ten lines into six pieces
    assert_eq!(list_edges.len(), 60);
}

#[test]
fn test_auto_matches_explicit_strategies() {
    let mut auto_edges = grid();
    let mut list_edges = grid();
    let auto = SplitSolver { strategy: Strategy::Auto, chunk_start_length: 4, chunk_list_max_size: 128 };
    auto.split(&mut auto_edges);
    solver(Strategy::List).split(&mut list_edges);
    assert_eq!(auto_edges, list_edges);
}

#[test]
fn test_point_key_exact_value() {
    // key = (y + 2^31) * 2^32 + (x + 2^31)
    assert_eq!(p(0, 0).bit_pack(), 0x8000_0000_8000_0000u64);
    assert_eq!(p(1, 0).bit_pack(), 0x8000_0000_8000_0001u64);
    assert_eq!(p(0, 1).bit_pack(), 0x8000_0001_8000_0000u64);
    assert_eq!(p(-0x8000_0000, -0x8000_0000).bit_pack(), 0u64);
}

#[test]
fn test_simple_tree_pass_resolves_crossing() {
    // sorted by `a` key: the vertical segment starts lower
    let mut edges = vec![seg(0, -10, 0, 10), seg(-10, 0, 10, 0)];
    let vr = ver_range(&edges);
    let layout = SpaceLayout::new(20, edges.len());
    let converged = solver(Strategy::Tree).simple(vr, &layout, &mut edges);
    assert!(converged);
    assert_eq!(edges.len(), 4);
    let center = p(0, 0);
    for e in edges.iter() {
        assert!(e.x_segment.a == center || e.x_segment.b == center);
    }
}

#[test]
fn test_flat_bag_goes_to_the_list_strategy() {
    // vertical extent below the tree threshold: the list result comes back
    let mut edges = vec![
        seg(-10, 0, 10, 2),
        seg(10, 0, -10, 2),
    ];
    let converged = solver(Strategy::Tree).tree_split(&mut edges);
    assert!(converged);
    assert_eq!(edges.len(), 4);
    let center = p(0, 1);
    for e in edges.iter() {
        assert!(e.x_segment.a == center || e.x_segment.b == center);
    }
}

#[test]
fn test_ver_range_covers_all_y() {
    let edges = vec![seg(-10, -3, 10, 7), seg(0, -8, 1, 2)];
    let r = ver_range(&edges);
    assert_eq!(r.min, -8);
    assert_eq!(r.max, 7);
}

#[test]
fn test_graph_from_split_output() {
    // self-crossing bow tie: split, then compile the graph
    let mut edges = vec![
        seg(-10, -10, 10, 10),
        seg(-10, 10, 10, -10),
    ];
    // order endpoints by key first: (-10,-10)<(10,10); (10,-10)<(-10,10)
    edges[1] = Segment { x_segment: XSegment { a: p(10, -10), b: p(-10, 10) }, fill: 0 };
    let converged = solver(Strategy::List).split(&mut edges);
    assert!(converged);
    assert_eq!(edges.len(), 4);
    let graph = OverlayGraph::new(edges);
    assert_eq!(graph.links().len(), 4);
    // five distinct endpoints: four corners and the crossing
    assert_eq!(graph.nodes().len(), 5);
}
