use timepix3::dbscan::dbscan;
use timepix3::dbscan::Label;
use timepix3::timepix::cluster;
use timepix3::timepix::TPXPoint;
use timepix3::utility::euclidean_distance_sq;

// The time axis is rescaled so that one clustering radius (2 pixel units)
// is 81920 fine clock units; a rescaled-time coordinate of `t` pixel units
// therefore corresponds to `t * 40960` fine units of time of flight.
const T: i64 = 40960;

fn event(tof: i64, x: u64, y: u64) -> TPXPoint {
    TPXPoint {
        shot_count: 0,
        tdc: 0,
        global_time: 0,
        tof,
        x,
        y,
        tot_ns: 0,
    }
}

/// Renumber cluster labels by first appearance so partitions can be
/// compared independently of the id numbering; noise stays `None`.
fn canonical(labels: &[Option<usize>]) -> Vec<Option<usize>> {
    let mut seen: Vec<usize> = Vec::new();
    labels
        .iter()
        .map(|l| {
            l.map(|c| {
                match seen.iter().position(|&s| s == c) {
                    Some(k) => k,
                    None => {
                        seen.push(c);
                        seen.len() - 1
                    }
                }
            })
        })
        .collect()
}

#[test]
fn distance_is_exact() {
    assert_eq!(euclidean_distance_sq(&vec![0, 0, 0], &vec![3, 4, 0]), 25);
    assert_eq!(euclidean_distance_sq(&vec![-2, 1], &vec![2, -2]), 25);
    assert_eq!(euclidean_distance_sq(&vec![7], &vec![7]), 0);
}

#[test]
fn five_point_set_yields_two_clusters_and_no_noise() {
    // The synthetic set {(0,0,0), (0,0,1), (0,0,2), (100,0,0), (100,0,1)}
    // with radius 2 and min_points 2: one cluster of three, one of two.
    let shot = vec![
        event(0, 0, 0),
        event(0, 0, 1),
        event(0, 0, 2),
        event(100 * T, 0, 0),
        event(100 * T, 0, 1),
    ];
    assert_eq!(cluster(&shot), vec![0, 0, 0, 1, 1]);
}

#[test]
fn single_isolated_point_is_noise() {
    let shot = vec![event(0, 128, 128)];
    assert_eq!(cluster(&shot), vec![-1]);
}

#[test]
fn labels_come_back_in_input_order() {
    // Events arrive interleaved across three time regions; the labels must
    // line up with the input events, not with the sorted order.
    let shot = vec![
        event(0, 10, 10),
        event(100 * T, 20, 20),
        event(0, 10, 11),
        event(100 * T, 20, 21),
        event(300 * T, 30, 30),
    ];
    let labels = cluster(&shot);
    assert_eq!(labels.len(), shot.len());
    assert_eq!(labels, vec![0, 1, 0, 1, -1]);
}

#[test]
fn all_noise_window_consumes_no_cluster_id() {
    // First window: two isolated points (noise). Second window: a pair.
    // The pair must still get id 0.
    let shot = vec![
        event(0, 0, 0),
        event(0, 100, 100),
        event(100 * T, 50, 50),
        event(100 * T, 50, 51),
    ];
    assert_eq!(cluster(&shot), vec![-1, -1, 0, 0]);
}

#[test]
fn chained_points_join_one_cluster() {
    // Points at unit spacing chain into a single cluster through repeated
    // expansion, even though the ends are farther apart than the radius;
    // a far-away point stays noise.
    let shot = vec![
        event(0, 0, 0),
        event(0, 0, 1),
        event(0, 0, 2),
        event(0, 0, 3),
        event(0, 200, 200),
    ];
    assert_eq!(cluster(&shot), vec![0, 0, 0, 0, -1]);
}

#[test]
fn sparse_point_reached_from_a_core_becomes_edge() {
    // With min_points 3, the first point's own neighborhood is too small
    // (it is labeled noise first), but the middle point is dense and
    // upgrades it to an edge of cluster 0.
    let data = vec![vec![0], vec![1], vec![2]];
    let labels = dbscan(&data, 4, 3);
    assert_eq!(labels, vec![Label::Edge(0), Label::Core(0), Label::Core(0)]);
}

#[test]
fn dbscan_labels_every_point() {
    let data = vec![
        vec![0, 0, 0],
        vec![0, 0, 1],
        vec![0, 0, 200],
        vec![0, 0, 201],
        vec![0, 500, 500],
    ];
    let labels = dbscan(&data, 4, 2);
    assert_eq!(labels.len(), 5);
    for l in &labels {
        assert!(*l != Label::Unchecked);
    }
    assert_eq!(labels[0], Label::Core(0));
    assert_eq!(labels[1], Label::Core(0));
    assert_eq!(labels[2], Label::Core(1));
    assert_eq!(labels[3], Label::Core(1));
    assert_eq!(labels[4], Label::Noise);
}

#[test]
fn dbscan_ids_follow_first_discovery_order() {
    // The pair discovered first by input index seeds cluster 0.
    let data = vec![vec![100], vec![0], vec![101], vec![1]];
    let labels = dbscan(&data, 4, 2);
    assert_eq!(labels[0], Label::Core(0));
    assert_eq!(labels[2], Label::Core(0));
    assert_eq!(labels[1], Label::Core(1));
    assert_eq!(labels[3], Label::Core(1));
}

#[test]
fn dbscan_twice_gives_identical_labels() {
    let data = vec![
        vec![0, 0],
        vec![0, 1],
        vec![0, 3],
        vec![10, 10],
        vec![10, 11],
        vec![50, 50],
    ];
    let first = dbscan(&data, 5, 2);
    let second = dbscan(&data, 5, 2);
    assert_eq!(first, second);
}

#[test]
fn cluster_twice_gives_identical_labels() {
    let shot = vec![
        event(0, 0, 0),
        event(0, 0, 1),
        event(100 * T, 7, 7),
        event(100 * T, 7, 8),
        event(50 * T, 3, 3),
    ];
    assert_eq!(cluster(&shot), cluster(&shot));
}

#[test]
fn windowed_clustering_matches_direct_clustering() {
    // Splitting by time gaps and clustering windows independently must give
    // the same membership (up to id numbering) as one DBSCAN run over the
    // whole rescaled shot.
    let shot = vec![
        event(0, 10, 10),
        event(100 * T, 20, 20),
        event(0, 10, 11),
        event(100 * T, 20, 21),
        event(300 * T, 30, 30),
        event(1, 10, 12),
    ];
    let windowed = cluster(&shot);

    // Direct run: the same rescaling, one DBSCAN invocation, no windows.
    let data: Vec<Vec<i64>> = shot
        .iter()
        .map(|e| vec![e.tof, (e.x as i64) * 40960, (e.y as i64) * 40960])
        .collect();
    let direct = dbscan(&data, 0x1_9000_0000, 2);

    let windowed_members: Vec<Option<usize>> = windowed
        .iter()
        .map(|&l| if l < 0 { None } else { Some(l as usize) })
        .collect();
    let direct_members: Vec<Option<usize>> = direct
        .iter()
        .map(|l| match l {
            Label::Core(c) => Some(*c),
            Label::Edge(c) => Some(*c),
            _ => None,
        })
        .collect();
    assert_eq!(canonical(&windowed_members), canonical(&direct_members));
}

#[test]
fn label_array_always_matches_event_count() {
    for n in 1..8usize {
        let shot: Vec<TPXPoint> = (0..n)
            .map(|i| event((i as i64) * 10 * T, i as u64, 0))
            .collect();
        let labels = cluster(&shot);
        assert_eq!(labels.len(), n);
    }
}
