use face_id::analyzer::FaceAnalysis;
use face_id::binary32::Binary32;
use face_id::clustering::{cluster_faces, group_faces, ClusterParams, ClusterSettings};
use face_id::detector::{BoundingBox, DetectedFace};
use face_id::error::FaceIdError;
use face_id::gender_age::Gender;
use hdbscan::{Hdbscan, HdbscanHyperParams};

fn bits(v: f32) -> Binary32 {
    Binary32::from_bits(v.to_bits())
}

fn analysis(embedding: &[f32], age: u8) -> FaceAnalysis {
    let zero = bits(0.0);
    FaceAnalysis {
        detection: DetectedFace {
            bbox: BoundingBox { x1: zero, y1: zero, x2: zero, y2: zero },
            landmarks: None,
            score: bits(age.into()),
        },
        embedding: embedding.iter().map(|v| bits(*v)).collect(),
        gender: Gender::Female,
        age,
    }
}

fn images() -> Vec<Vec<FaceAnalysis>> {
    vec![
        vec![analysis(&[1.0], 10), analysis(&[2.0], 11)],
        vec![],
        vec![analysis(&[3.0], 12)],
        vec![analysis(&[4.0], 13), analysis(&[5.0], 14), analysis(&[6.0], 15)],
    ]
}

#[test]
fn faces_are_grouped_by_label() {
    let cluster = |embeddings: &Vec<Vec<Binary32>>, _: ClusterParams| {
        let seen: Vec<f32> = embeddings.iter().map(|e| f32::from_bits(e[0].bits)).collect();
        assert_eq!(seen, vec![1.0, 2.0, 3.0, 4.0, 5.0, 6.0]);
        Ok(vec![0, -1, 0, 7, -1, 0])
    };
    let r = cluster_faces(images(), &ClusterSettings::default(), cluster).unwrap();
    let ages = |label: i32| -> Vec<(usize, u8)> { r[&label].iter().map(|(i, a)| (*i, a.age)).collect() };
    assert_eq!(r.len(), 3);
    assert_eq!(ages(0), vec![(0, 10), (2, 12), (3, 15)]);
    assert_eq!(ages(-1), vec![(0, 11), (3, 14)]);
    assert_eq!(ages(7), vec![(3, 13)]);
}

#[test]
fn embeddings_come_back_to_their_faces() {
    let cluster = |_: &Vec<Vec<Binary32>>, _: ClusterParams| Ok(vec![1; 6]);
    let r = cluster_faces(images(), &ClusterSettings::default(), cluster).unwrap();
    let expected: Vec<(usize, FaceAnalysis)> =
        images().into_iter().enumerate().flat_map(|(i, list)| list.into_iter().map(move |a| (i, a))).collect();
    assert_eq!(r[&1], expected);
}

#[test]
fn no_face_is_lost_or_doubled() {
    let cluster = |_: &Vec<Vec<Binary32>>, _: ClusterParams| Ok(vec![3, 1, 3, 2, 1, 3]);
    let r = cluster_faces(images(), &ClusterSettings::default(), cluster).unwrap();
    assert_eq!(r.values().map(|list| list.len()).sum::<usize>(), 6);
    assert_eq!((r[&1].len(), r[&2].len(), r[&3].len()), (2, 1, 3));
}

#[test]
fn no_faces_make_no_clusters() {
    let cluster = |_: &Vec<Vec<Binary32>>, _: ClusterParams| -> Result<Vec<i32>, String> { panic!("nothing to cluster") };
    assert!(cluster_faces(vec![], &ClusterSettings::default(), cluster).unwrap().is_empty());
    assert!(cluster_faces(vec![vec![], vec![]], &ClusterSettings::default(), cluster).unwrap().is_empty());
}

#[test]
fn clustering_failures_come_through() {
    let cluster = |_: &Vec<Vec<Binary32>>, _: ClusterParams| Err("too small".to_string());
    let e = cluster_faces(images(), &ClusterSettings::default(), cluster).unwrap_err();
    assert_eq!(e, FaceIdError::Clustering("too small".to_string()));
}

#[test]
fn there_has_to_be_a_label_for_each_face() {
    let cluster = |_: &Vec<Vec<Binary32>>, _: ClusterParams| Ok(vec![0; 11]);
    let e = cluster_faces(images(), &ClusterSettings::default(), cluster).unwrap_err();
    assert_eq!(e, FaceIdError::Clustering("Expected 6 labels, got 11".to_string()));
    let e = group_faces(vec![(0, analysis(&[], 1))], vec![vec![]], &vec![]).unwrap_err();
    assert_eq!(e, FaceIdError::Clustering("Expected 1 labels, got 0".to_string()));
}

#[test]
fn settings_have_defaults() {
    let mut settings = ClusterSettings::default();
    let expected = ClusterParams {
        min_cluster_size: 5,
        max_cluster_size: usize::MAX,
        allow_single_cluster: false,
        min_samples: 5,
    };
    assert_eq!(settings.params(), expected);
    settings.min_cluster_size = 9;
    assert_eq!(settings.params().min_samples, 9);
    settings.min_samples = Some(2);
    assert_eq!(settings.params().min_samples, 2);
    let cluster = |_: &Vec<Vec<Binary32>>, p: ClusterParams| {
        assert_eq!((p.min_cluster_size, p.min_samples), (9, 2));
        Ok(vec![0; 6])
    };
    assert_eq!(cluster_faces(images(), &settings, cluster).unwrap().len(), 1);
}

#[test]
fn two_people_make_two_clusters() {
    let mut list = Vec::new();
    for i in 0..6u8 {
        let d = f32::from(i) * 0.01;
        list.push(vec![analysis(&[1.0, d], i), analysis(&[d, 1.0], 50 + i)]);
    }
    list.push(vec![analysis(&[-40.0, -40.0], 99)]);
    let cluster = |embeddings: &Vec<Vec<Binary32>>, p: ClusterParams| {
        let data: Vec<Vec<f32>> =
            embeddings.iter().map(|e| e.iter().map(|b| f32::from_bits(b.bits)).collect()).collect();
        let params = HdbscanHyperParams::builder()
            .min_cluster_size(p.min_cluster_size)
            .max_cluster_size(p.max_cluster_size)
            .allow_single_cluster(p.allow_single_cluster)
            .min_samples(p.min_samples)
            .build();
        Hdbscan::new(&data, params).cluster().map_err(|e| e.to_string())
    };
    let r = cluster_faces(list, &ClusterSettings::default(), cluster).unwrap();
    assert_eq!(r.len(), 3);
    assert_eq!(r[&-1].len(), 1);
    assert_eq!(r[&-1][0].1.age, 99);
    for (label, members) in &r {
        if *label != -1 {
            assert_eq!(members.len(), 6);
            let first = members[0].1.age < 50;
            assert!(members.iter().all(|(_, a)| (a.age < 50) == first));
        }
    }
}
