//! Clusters of faces that look alike.

use std::collections::HashMap;
use vstd::prelude::*;
use crate::analyzer::{FaceAnalysis, FaceAnalysisView};
use crate::binary32::Binary32;
use crate::error::{FaceIdError, FaceIdErrorView};
use crate::text::{append_decimal, decimal, numbered};

verus! {

/// What a caller may ask of the clustering.
pub struct ClusterSettings {
    pub min_cluster_size: usize,
    pub max_cluster_size: usize,
    pub allow_single_cluster: bool,
    /// As large as the smallest cluster where nothing is given.
    pub min_samples: Option<usize>,
}

impl Default for ClusterSettings {
    fn default() -> (r: ClusterSettings)
        ensures
            r == (ClusterSettings {
                min_cluster_size: 5,
                max_cluster_size: usize::MAX,
                allow_single_cluster: false,
                min_samples: None,
            }),
    {
        ClusterSettings {
            min_cluster_size: 5,
            max_cluster_size: usize::MAX,
            allow_single_cluster: false,
            min_samples: None,
        }
    }
}

/// The parameters that the clustering runs with.
#[derive(Clone, Copy, Debug, PartialEq, Eq, Structural)]
pub struct ClusterParams {
    pub min_cluster_size: usize,
    pub max_cluster_size: usize,
    pub allow_single_cluster: bool,
    pub min_samples: usize,
}

impl ClusterSettings {
    pub open spec fn spec_params(self) -> ClusterParams {
        ClusterParams {
            min_cluster_size: self.min_cluster_size,
            max_cluster_size: self.max_cluster_size,
            allow_single_cluster: self.allow_single_cluster,
            min_samples: match self.min_samples {
                Some(n) => n,
                None => self.min_cluster_size,
            },
        }
    }

    pub fn params(&self) -> (r: ClusterParams)
        ensures
            r == self.spec_params(),
    {
        ClusterParams {
            min_cluster_size: self.min_cluster_size,
            max_cluster_size: self.max_cluster_size,
            allow_single_cluster: self.allow_single_cluster,
            min_samples: match self.min_samples {
                Some(n) => n,
                None => self.min_cluster_size,
            },
        }
    }
}

/// A face and the number of the image it was found in.
pub open spec fn located(m: (usize, FaceAnalysis)) -> (usize, FaceAnalysisView) {
    (m.0, m.1@)
}

pub open spec fn all_located(list: Seq<(usize, FaceAnalysis)>) -> Seq<(usize, FaceAnalysisView)> {
    list.map_values(|m: (usize, FaceAnalysis)| located(m))
}

/// The faces of image number `i`.
pub open spec fn faces_of(list: Seq<FaceAnalysis>, i: usize) -> Seq<(usize, FaceAnalysisView)> {
    list.map_values(|a: FaceAnalysis| (i, a@))
}

/// The faces of all images, image by image.
pub open spec fn all_faces(images: Seq<Vec<FaceAnalysis>>) -> Seq<(usize, FaceAnalysisView)>
    decreases images.len(),
{
    if images.len() == 0 {
        Seq::empty()
    } else {
        all_faces(images.drop_last()) + faces_of(images.last()@, (images.len() - 1) as usize)
    }
}

/// The faces with the given label, in their order.
pub open spec fn members(
    faces: Seq<(usize, FaceAnalysisView)>,
    labels: Seq<i32>,
    label: i32,
) -> Seq<(usize, FaceAnalysisView)>
    decreases labels.len(),
{
    if labels.len() == 0 {
        Seq::empty()
    } else {
        let before = members(faces.drop_last(), labels.drop_last(), label);
        if labels.last() == label {
            before.push(faces.last())
        } else {
            before
        }
    }
}

/// There is a cluster for each label, and it holds the faces with that label.
pub open spec fn grouped(
    clusters: Map<i32, Vec<(usize, FaceAnalysis)>>,
    faces: Seq<(usize, FaceAnalysisView)>,
    labels: Seq<i32>,
) -> bool {
    &&& forall|label: i32| #[trigger] clusters.contains_key(label) <==> labels.contains(label)
    &&& forall|label: i32| #[trigger]
        clusters.contains_key(label) ==> all_located(clusters[label]@) == members(faces, labels, label)
}

/// The error for a number of labels that does not fit the number of faces.
pub open spec fn label_count_error(faces: nat, labels: nat) -> FaceIdErrorView {
    FaceIdErrorView::Clustering("Expected "@ + decimal(faces) + " labels, got "@ + decimal(labels))
}

/// Lists the faces of all images, each with the number of its image.
fn flatten(images: Vec<Vec<FaceAnalysis>>) -> (r: Vec<(usize, FaceAnalysis)>)
    ensures
        all_located(r@) == all_faces(images@),
{
    let ghost all = images@;
    let mut r: Vec<(usize, FaceAnalysis)> = Vec::new();
    let mut i: usize = 0;
    proof {
        assert(all.take(0) =~= Seq::<Vec<FaceAnalysis>>::empty());
        assert(all_located(r@) =~= all_faces(all.take(0)));
        assert(images.len() <= usize::MAX);
    }
    for list in images_left: images.into_iter()
        invariant
            images_left.seq() == all,
            i == images_left.index(),
            all.len() <= usize::MAX,
            all_located(r@) == all_faces(all.take(i as int)),
    {
        let ghost before = all_located(r@);
        let ghost faces = list@;
        assert(faces.take(0) =~= Seq::<FaceAnalysis>::empty());
        assert(before + faces_of(faces.take(0), i) =~= before);
        for face in faces_left: list.into_iter()
            invariant
                faces_left.seq() == faces,
                all_located(r@) == before + faces_of(faces.take(faces_left.index() as int), i),
        {
            let ghost k = faces_left.index() as int;
            let ghost so_far = r@;
            let entry = (i, face);
            r.push(entry);
            proof {
                assert(faces.take(k + 1) =~= faces.take(k).push(face));
                assert(all_located(r@) =~= all_located(so_far).push(located(entry)));
                assert(faces_of(faces.take(k + 1), i) =~= faces_of(faces.take(k), i).push((i, face@)));
                assert(all_located(r@) =~= before + faces_of(faces.take(k + 1), i));
            }
        }
        proof {
            assert(faces.take(faces.len() as int) =~= faces);
            assert(all.take(i + 1).drop_last() =~= all.take(i as int));
            assert(all.take(i + 1).last() == all[i as int]);
        }
        i = i + 1;
    }
    assert(all.take(i as int) =~= all);
    r
}

/// The embeddings of faces, in their order.
pub open spec fn embeddings_of(faces: Seq<(usize, FaceAnalysisView)>) -> Seq<Seq<Binary32>> {
    faces.map_values(|m: (usize, FaceAnalysisView)| m.1.embedding)
}

/// The faces with the given embeddings in place of their own.
pub open spec fn with_embeddings(
    faces: Seq<(usize, FaceAnalysisView)>,
    embeddings: Seq<Vec<Binary32>>,
) -> Seq<(usize, FaceAnalysisView)> {
    Seq::new(
        faces.len(),
        |i: int|
            (
                faces[i].0,
                FaceAnalysisView {
                    detection: faces[i].1.detection,
                    embedding: embeddings[i]@,
                    gender: faces[i].1.gender,
                    age: faces[i].1.age,
                },
            ),
    )
}

/// Moves the embeddings out of the faces.
fn take_embeddings(faces: &mut Vec<(usize, FaceAnalysis)>) -> (r: Vec<Vec<Binary32>>)
    ensures
        r@.map_values(|e: Vec<Binary32>| e@) == embeddings_of(all_located(old(faces)@)),
        final(faces)@.len() == old(faces)@.len(),
        with_embeddings(all_located(final(faces)@), r@) == all_located(old(faces)@),
{
    let mut r: Vec<Vec<Binary32>> = Vec::new();
    let count: usize = faces.len();
    let mut i: usize = 0;
    while i < count
        invariant
            i <= count,
            count == faces@.len(),
            faces@.len() == old(faces)@.len(),
            r@.len() == i,
            forall|k: int| 0 <= k < i ==> (#[trigger] r@[k])@ == old(faces)@[k].1.embedding@,
            forall|k: int|
                0 <= k < i ==> {
                    let (new, before) = (#[trigger] faces@[k], old(faces)@[k]);
                    &&& new.0 == before.0
                    &&& new.1.detection == before.1.detection
                    &&& new.1.gender == before.1.gender
                    &&& new.1.age == before.1.age
                },
            forall|k: int| i <= k < count ==> #[trigger] faces@[k] == old(faces)@[k],
        decreases count - i,
    {
        let mut embedding: Vec<Binary32> = Vec::new();
        std::mem::swap(&mut embedding, &mut faces[i].1.embedding);
        r.push(embedding);
        i = i + 1;
    }
    proof {
        assert(r@.map_values(|e: Vec<Binary32>| e@) =~= embeddings_of(all_located(old(faces)@)));
        assert(with_embeddings(all_located(faces@), r@) =~= all_located(old(faces)@));
    }
    r
}

/// Puts the faces into one cluster for each label, with their embeddings.
pub fn group_faces(faces: Vec<(usize, FaceAnalysis)>, embeddings: Vec<Vec<Binary32>>, labels: &Vec<i32>) -> (r: Result<
    HashMap<i32, Vec<(usize, FaceAnalysis)>>,
    FaceIdError,
>)
    requires
        embeddings@.len() == faces@.len(),
    ensures
        match r {
            Ok(clusters) => {
                &&& labels@.len() == faces@.len()
                &&& grouped(clusters@, with_embeddings(all_located(faces@), embeddings@), labels@)
            },
            Err(e) => {
                &&& labels@.len() != faces@.len()
                &&& e@ == label_count_error(faces@.len(), labels@.len())
            },
        },
{
    broadcast use vstd::std_specs::hash::group_hash_axioms;

    if labels.len() != faces.len() {
        let mut text = numbered("Expected ", faces.len(), " labels, got ");
        append_decimal(&mut text, labels.len());
        return Err(FaceIdError::Clustering(text));
    }
    let ghost all = faces@;
    let ghost vectors = embeddings@;
    let ghost whole = with_embeddings(all_located(all), vectors);
    let mut left = embeddings;
    let mut clusters: HashMap<i32, Vec<(usize, FaceAnalysis)>> = HashMap::new();
    let mut i: usize = 0;
    for entry in faces_left: faces.into_iter()
        invariant
            faces_left.seq() == all,
            i == faces_left.index(),
            all.len() == labels@.len(),
            all.len() == vectors.len(),
            left@.len() == vectors.len(),
            forall|k: int| i <= k < vectors.len() ==> #[trigger] left@[k] == vectors[k],
            whole == with_embeddings(all_located(all), vectors),
            grouped(clusters@, whole.take(i as int), labels@.take(i as int)),
    {
        broadcast use vstd::std_specs::hash::group_hash_axioms;

        let ghost before = clusters@;
        let ghost k = i as int;
        let label: i32 = labels[i];
        assert(labels.len() <= usize::MAX);
        let mut embedding: Vec<Binary32> = Vec::new();
        std::mem::swap(&mut embedding, &mut left[i]);
        let (image, mut face) = entry;
        face.embedding = embedding;
        let member = (image, face);
        assert(located(member) == whole[k]);
        let none: Vec<(usize, FaceAnalysis)> = Vec::new();
        let cluster = clusters.entry(label).or_insert(none);
        cluster.push(member);
        proof {
            lemma_next_member(whole, labels@, k);
            assert forall|l: i32| #[trigger] clusters@.contains_key(l) <==> labels@.take(k + 1).contains(l) by {
                assert(labels@.take(k + 1) =~= labels@.take(k).push(label));
                if labels@.take(k).contains(l) {
                    let j = labels@.take(k).index_of(l);
                    assert(labels@.take(k + 1)[j] == l);
                }
                if l == label {
                    assert(labels@.take(k + 1)[k] == l);
                }
                if labels@.take(k + 1).contains(l) && l != label {
                    let j = labels@.take(k + 1).index_of(l);
                    assert(labels@.take(k)[j] == l);
                }
                assert(before.contains_key(l) <==> labels@.take(k).contains(l));
            }
            assert forall|l: i32| #[trigger] clusters@.contains_key(l) implies all_located(clusters@[l]@) == members(
                whole.take(k + 1),
                labels@.take(k + 1),
                l,
            ) by {
                if l == label {
                    let old_list = if before.contains_key(label) {
                        before[label]@
                    } else {
                        Seq::empty()
                    };
                    assert(clusters@[label]@ == old_list.push(member));
                    assert(all_located(clusters@[label]@) =~= all_located(old_list).push(whole[k]));
                    if !before.contains_key(label) {
                        assert(!labels@.take(k).contains(label));
                        lemma_no_members(whole.take(k), labels@.take(k), label);
                        assert(all_located(old_list) =~= Seq::<(usize, FaceAnalysisView)>::empty());
                    }
                } else {
                    assert(before.contains_key(l));
                }
            }
        }
        i = i + 1;
    }
    proof {
        assert(whole.take(i as int) =~= whole);
        assert(labels@.take(i as int) =~= labels@);
    }
    Ok(clusters)
}

/// What comes of handing the embeddings of some faces to the clustering: for
/// some answer, the clusters it stands for, or why it is of no use.
pub open spec fn clustered<C: FnOnce(&Vec<Vec<Binary32>>, ClusterParams) -> Result<Vec<i32>, String>>(
    cluster: C,
    params: ClusterParams,
    faces: Seq<(usize, FaceAnalysisView)>,
    result: Result<HashMap<i32, Vec<(usize, FaceAnalysis)>>, FaceIdError>,
) -> bool {
    exists|embeddings: Vec<Vec<Binary32>>, answer: Result<Vec<i32>, String>|
        {
            &&& embeddings@.map_values(|e: Vec<Binary32>| e@) == embeddings_of(faces)
            &&& #[trigger] call_ensures(cluster, (&embeddings, params), answer)
            &&& match answer {
                Err(message) => result matches Err(e) && e@ == FaceIdErrorView::Clustering(message@),
                Ok(labels) => if labels@.len() != faces.len() {
                    result matches Err(e) && e@ == label_count_error(faces.len(), labels@.len())
                } else {
                    result matches Ok(clusters) && grouped(clusters@, faces, labels@)
                },
            }
        }
}

/// Clusters the faces of several images by their embeddings.
///
/// `images` holds the faces of each image. `cluster` gives each embedding the
/// label of its cluster, or fails with a message; the label -1 stands for noise.
/// It is called only where there are faces, with their embeddings.
/// Each face comes back with the number of its image.
pub fn cluster_faces<C: FnOnce(&Vec<Vec<Binary32>>, ClusterParams) -> Result<Vec<i32>, String>>(
    images: Vec<Vec<FaceAnalysis>>,
    settings: &ClusterSettings,
    cluster: C,
) -> (r: Result<HashMap<i32, Vec<(usize, FaceAnalysis)>>, FaceIdError>)
    requires
        all_faces(images@).len() > 0 ==> (forall|embeddings: &Vec<Vec<Binary32>>|
            embeddings@.map_values(|e: Vec<Binary32>| e@) == embeddings_of(all_faces(images@)) ==> #[trigger] call_requires(
                cluster,
                (embeddings, settings.spec_params()),
            )),
    ensures
        all_faces(images@).len() == 0 ==> (r matches Ok(clusters) && clusters@ == Map::<
            i32,
            Vec<(usize, FaceAnalysis)>,
        >::empty()),
        all_faces(images@).len() > 0 ==> clustered(cluster, settings.spec_params(), all_faces(images@), r),
{
    broadcast use vstd::std_specs::hash::group_hash_axioms;

    let mut faces = flatten(images);
    let ghost all = all_located(faces@);
    if faces.len() == 0 {
        return Ok(HashMap::new());
    }
    let embeddings = take_embeddings(&mut faces);
    assert(embeddings@.map_values(|e: Vec<Binary32>| e@).len() == embeddings@.len());
    let params = settings.params();
    let answer = cluster(&embeddings, params);
    assert(call_ensures(cluster, (&embeddings, params), answer));
    match answer {
        Err(message) => Err(FaceIdError::Clustering(message)),
        Ok(labels) => group_faces(faces, embeddings, &labels),
    }
}

/// Every face is in the cluster of its label.
pub proof fn law_every_face_is_in_its_cluster(faces: Seq<(usize, FaceAnalysisView)>, labels: Seq<i32>, i: int)
    requires
        faces.len() == labels.len(),
        0 <= i < faces.len(),
    ensures
        members(faces, labels, labels[i]).contains(faces[i]),
    decreases labels.len(),
{
    let label = labels[i];
    let before = members(faces.drop_last(), labels.drop_last(), label);
    if i == labels.len() - 1 {
        assert(before.push(faces.last())[before.len() as int] == faces[i]);
    } else {
        law_every_face_is_in_its_cluster(faces.drop_last(), labels.drop_last(), i);
        let j = before.index_of(faces[i]);
        assert(before.push(faces.last())[j] == faces[i]);
    }
}

/// A cluster holds no face but those with its label.
pub proof fn law_clusters_hold_only_their_faces(
    faces: Seq<(usize, FaceAnalysisView)>,
    labels: Seq<i32>,
    label: i32,
    j: int,
)
    requires
        faces.len() == labels.len(),
        0 <= j < members(faces, labels, label).len(),
    ensures
        exists|i: int| 0 <= i < faces.len() && #[trigger] labels[i] == label && faces[i] == members(faces, labels, label)[j],
    decreases labels.len(),
{
    let n = labels.len() - 1;
    let before = members(faces.drop_last(), labels.drop_last(), label);
    if j == before.len() {
        assert(labels[n] == label && faces[n] == members(faces, labels, label)[j]);
    } else {
        law_clusters_hold_only_their_faces(faces.drop_last(), labels.drop_last(), label, j);
        let i = choose|i: int|
            0 <= i < n && #[trigger] labels.drop_last()[i] == label && faces.drop_last()[i] == before[j];
        assert(labels[i] == label && faces[i] == members(faces, labels, label)[j]);
    }
}

/// A cluster has as many faces as there are labels of its own, so that all
/// clusters together have as many as there are faces.
pub proof fn law_no_face_is_lost_or_doubled(faces: Seq<(usize, FaceAnalysisView)>, labels: Seq<i32>, label: i32)
    requires
        faces.len() == labels.len(),
    ensures
        members(faces, labels, label).len() == labels.to_multiset().count(label),
        labels.to_multiset().len() == faces.len(),
    decreases labels.len(),
{
    broadcast use vstd::seq_lib::group_to_multiset_ensures;

    if labels.len() > 0 {
        law_no_face_is_lost_or_doubled(faces.drop_last(), labels.drop_last(), label);
        assert(labels =~= labels.drop_last().push(labels.last()));
    }
}

/// The members of a cluster, with one more face looked at.
proof fn lemma_next_member(faces: Seq<(usize, FaceAnalysisView)>, labels: Seq<i32>, k: int)
    requires
        faces.len() == labels.len(),
        0 <= k < labels.len(),
    ensures
        forall|label: i32| #[trigger]
            members(faces.take(k + 1), labels.take(k + 1), label) == (if labels[k] == label {
                members(faces.take(k), labels.take(k), label).push(faces[k])
            } else {
                members(faces.take(k), labels.take(k), label)
            }),
{
    assert(faces.take(k + 1).drop_last() =~= faces.take(k));
    assert(labels.take(k + 1).drop_last() =~= labels.take(k));
}

/// A label that no face has has no members.
proof fn lemma_no_members(faces: Seq<(usize, FaceAnalysisView)>, labels: Seq<i32>, label: i32)
    requires
        !labels.contains(label),
    ensures
        members(faces, labels, label) == Seq::<(usize, FaceAnalysisView)>::empty(),
    decreases labels.len(),
{
    if labels.len() > 0 {
        assert(labels.last() == labels[labels.len() - 1]);
        assert forall|i: int| 0 <= i < labels.len() - 1 implies labels.drop_last()[i] != label by {
            assert(labels[i] != label);
        }
        lemma_no_members(faces.drop_last(), labels.drop_last(), label);
    }
}

/// How many faces the images before number `i` have.
pub open spec fn faces_before(images: Seq<Vec<FaceAnalysis>>, i: int) -> nat
    decreases i,
{
    if i <= 0 {
        0
    } else {
        faces_before(images, i - 1) + images[i - 1]@.len()
    }
}

/// The list of all faces: face `j` of image `i` stands behind all faces of the
/// images before it, with the number of its image.
pub proof fn law_every_face_has_its_place(images: Seq<Vec<FaceAnalysis>>, i: int, j: int)
    requires
        images.len() <= usize::MAX,
        0 <= i < images.len(),
        0 <= j < images[i]@.len(),
    ensures
        all_faces(images).len() == faces_before(images, images.len() as int),
        faces_before(images, i) + j < all_faces(images).len(),
        all_faces(images)[faces_before(images, i) + j] == (i as usize, images[i]@[j]@),
{
    lemma_face_count(images);
    lemma_face_place(images, i, j);
}

/// The list of all faces holds nothing else: what stands at place `p` is a face of
/// the image with that number.
pub proof fn law_every_place_has_its_face(images: Seq<Vec<FaceAnalysis>>, p: int)
    requires
        images.len() <= usize::MAX,
        0 <= p < all_faces(images).len(),
    ensures
        all_faces(images).len() == faces_before(images, images.len() as int),
        ({
            let m = all_faces(images)[p];
            &&& m.0 < images.len()
            &&& faces_before(images, m.0 as int) <= p < faces_before(images, m.0 as int) + images[m.0 as int]@.len()
            &&& m.1 == images[m.0 as int]@[p - faces_before(images, m.0 as int)]@
        }),
{
    lemma_face_count(images);
    lemma_face_origin(images, p);
}

proof fn lemma_face_count(images: Seq<Vec<FaceAnalysis>>)
    ensures
        all_faces(images).len() == faces_before(images, images.len() as int),
    decreases images.len(),
{
    if images.len() > 0 {
        let n = images.len() - 1;
        lemma_face_count(images.drop_last());
        lemma_faces_before(images, n);
        assert(faces_before(images, n + 1) == faces_before(images, n) + images[n]@.len());
    }
}

proof fn lemma_face_place(images: Seq<Vec<FaceAnalysis>>, i: int, j: int)
    requires
        images.len() <= usize::MAX,
        0 <= i < images.len(),
        0 <= j < images[i]@.len(),
    ensures
        faces_before(images, i) + j < all_faces(images).len(),
        all_faces(images)[faces_before(images, i) + j] == (i as usize, images[i]@[j]@),
    decreases images.len(),
{
    let n = images.len() - 1;
    let front = images.drop_last();
    lemma_face_count(front);
    lemma_faces_before(images, i);
    lemma_faces_before(images, n);
    if i < n {
        assert(front[i] == images[i]);
        lemma_face_place(front, i, j);
    }
}

proof fn lemma_face_origin(images: Seq<Vec<FaceAnalysis>>, p: int)
    requires
        images.len() <= usize::MAX,
        0 <= p < all_faces(images).len(),
    ensures
        ({
            let m = all_faces(images)[p];
            &&& m.0 < images.len()
            &&& faces_before(images, m.0 as int) <= p < faces_before(images, m.0 as int) + images[m.0 as int]@.len()
            &&& m.1 == images[m.0 as int]@[p - faces_before(images, m.0 as int)]@
        }),
    decreases images.len(),
{
    let n = images.len() - 1;
    let front = images.drop_last();
    lemma_face_count(front);
    lemma_faces_before(images, n);
    if p < all_faces(front).len() {
        lemma_face_origin(front, p);
        let i = all_faces(front)[p].0 as int;
        lemma_faces_before(images, i);
        assert(front[i] == images[i]);
    }
}

proof fn lemma_faces_before(images: Seq<Vec<FaceAnalysis>>, i: int)
    requires
        0 <= i < images.len(),
    ensures
        faces_before(images.drop_last(), i) == faces_before(images, i),
    decreases i,
{
    if i > 0 {
        lemma_faces_before(images, i - 1);
    }
}

/// The places of the faces with the given label, in order.
pub open spec fn are_places(places: Seq<int>, labels: Seq<i32>, label: i32) -> bool {
    &&& forall|a: int| 0 <= a < places.len() ==> 0 <= #[trigger] places[a] < labels.len() && labels[places[a]] == label
    &&& forall|a: int, b: int| 0 <= a < b < places.len() ==> #[trigger] places[a] < #[trigger] places[b]
    &&& forall|i: int| 0 <= i < labels.len() && #[trigger] labels[i] == label ==> places.contains(i)
}

/// The members of a cluster are the faces with its label, all of them, each once,
/// and in the order of the faces.
pub proof fn law_members_in_order(faces: Seq<(usize, FaceAnalysisView)>, labels: Seq<i32>, label: i32)
    requires
        faces.len() == labels.len(),
    ensures
        exists|places: Seq<int>|
            #[trigger] are_places(places, labels, label) && members(faces, labels, label) == places.map_values(
                |i: int| faces[i],
            ),
    decreases labels.len(),
{
    if labels.len() == 0 {
        let none = Seq::<int>::empty();
        assert(are_places(none, labels, label));
        assert(members(faces, labels, label) =~= none.map_values(|i: int| faces[i]));
    } else {
        let n = labels.len() - 1;
        let (f, l) = (faces.drop_last(), labels.drop_last());
        law_members_in_order(f, l, label);
        let before = choose|places: Seq<int>|
            #[trigger] are_places(places, l, label) && members(f, l, label) == places.map_values(|i: int| f[i]);
        let places = if labels[n] == label {
            before.push(n)
        } else {
            before
        };
        assert forall|i: int| 0 <= i < labels.len() && #[trigger] labels[i] == label implies places.contains(i) by {
            if i < n {
                assert(l[i] == label);
                let a = before.index_of(i);
                assert(places[a] == i);
            } else {
                assert(places[places.len() - 1] == i);
            }
        }
        assert(are_places(places, labels, label));
        assert(members(faces, labels, label) =~= places.map_values(|i: int| faces[i]));
    }
}

/// The clusters of the faces of some images: there is a cluster for each label and
/// no other, and every entry of it is a face of the image with that number, at a
/// place with that label.
pub proof fn law_clusters_name_the_image(
    clusters: Map<i32, Vec<(usize, FaceAnalysis)>>,
    images: Seq<Vec<FaceAnalysis>>,
    labels: Seq<i32>,
    label: i32,
    j: int,
)
    requires
        images.len() <= usize::MAX,
        labels.len() == all_faces(images).len(),
        grouped(clusters, all_faces(images), labels),
        clusters.contains_key(label),
        0 <= j < clusters[label]@.len(),
    ensures
        ({
            let (i, face) = (clusters[label]@[j].0 as int, clusters[label]@[j].1@);
            &&& 0 <= i < images.len()
            &&& exists|k: int|
                0 <= k < images[i]@.len() && face == (#[trigger] images[i]@[k])@ && labels[faces_before(images, i) + k]
                    == label
        }),
{
    let faces = all_faces(images);
    law_clusters_hold_only_their_faces(faces, labels, label, j);
    let entry = clusters[label]@[j];
    assert(all_located(clusters[label]@)[j] == located(entry));
    let p = choose|p: int|
        0 <= p < faces.len() && #[trigger] labels[p] == label && faces[p] == members(faces, labels, label)[j];
    law_every_place_has_its_face(images, p);
    let i = faces[p].0 as int;
    let k = p - faces_before(images, i);
    assert(faces[p].1 == images[i]@[k]@);
    assert(labels[faces_before(images, i) + k] == label);
}

/// No face is missing: face `k` of image `i` is in the cluster of its label.
pub proof fn law_every_face_of_every_image_is_clustered(
    clusters: Map<i32, Vec<(usize, FaceAnalysis)>>,
    images: Seq<Vec<FaceAnalysis>>,
    labels: Seq<i32>,
    i: int,
    k: int,
)
    requires
        images.len() <= usize::MAX,
        labels.len() == all_faces(images).len(),
        grouped(clusters, all_faces(images), labels),
        0 <= i < images.len(),
        0 <= k < images[i]@.len(),
    ensures
        ({
            let label = labels[faces_before(images, i) + k];
            &&& clusters.contains_key(label)
            &&& exists|j: int|
                0 <= j < clusters[label]@.len() && (#[trigger] clusters[label]@[j]).0 == i && clusters[label]@[j].1@
                    == images[i]@[k]@
        }),
{
    let faces = all_faces(images);
    law_every_face_has_its_place(images, i, k);
    let p = faces_before(images, i) + k;
    assert(faces[p] == (i as usize, images[i]@[k]@));
    let label = labels[p];
    assert(labels.contains(label));
    assert(clusters.contains_key(label));
    law_every_face_is_in_its_cluster(faces, labels, p);
    let j = members(faces, labels, label).index_of(faces[p]);
    assert(all_located(clusters[label]@)[j] == located(clusters[label]@[j]));
}

/// The clustering is given the embeddings in the order of the faces.
pub proof fn law_embeddings_in_the_order_of_the_faces(images: Seq<Vec<FaceAnalysis>>, i: int, k: int)
    requires
        images.len() <= usize::MAX,
        0 <= i < images.len(),
        0 <= k < images[i]@.len(),
    ensures
        embeddings_of(all_faces(images)).len() == faces_before(images, images.len() as int),
        embeddings_of(all_faces(images))[(faces_before(images, i) + k) as int] == images[i]@[k].embedding@,
{
    law_every_face_has_its_place(images, i, k);
    assert(all_faces(images)[faces_before(images, i) + k] == (i as usize, images[i]@[k]@));
}

/// Settings reach the clustering as they are; where no number of samples is given,
/// it is the size of the smallest cluster.
pub proof fn law_settings_reach_the_clustering(settings: ClusterSettings)
    ensures
        settings.spec_params().min_cluster_size == settings.min_cluster_size,
        settings.spec_params().max_cluster_size == settings.max_cluster_size,
        settings.spec_params().allow_single_cluster == settings.allow_single_cluster,
        settings.min_samples is Some ==> settings.min_samples == Some(settings.spec_params().min_samples),
        settings.min_samples is None ==> settings.spec_params().min_samples == settings.min_cluster_size,
{
}

/// Putting embeddings back gives face `i` embedding `i`, and changes nothing else.
pub proof fn law_embeddings_are_put_back(faces: Seq<(usize, FaceAnalysisView)>, embeddings: Seq<Vec<Binary32>>, i: int)
    requires
        0 <= i < faces.len(),
    ensures
        ({
            let (list, before) = (with_embeddings(faces, embeddings), faces[i]);
            &&& list.len() == faces.len()
            &&& list[i].0 == before.0
            &&& list[i].1.embedding == embeddings[i]@
            &&& list[i].1.detection == before.1.detection
            &&& list[i].1.gender == before.1.gender
            &&& list[i].1.age == before.1.age
        }),
{
}

/// The clusters that come back are those of some answer to all the embeddings, in
/// the order of the images and of the faces in them, with one label for each: face
/// `k` of image `i` is in the cluster of the label that the answer has at its place.
pub proof fn law_clusters_follow_the_answer<C: FnOnce(&Vec<Vec<Binary32>>, ClusterParams) -> Result<Vec<i32>, String>>(
    cluster: C,
    params: ClusterParams,
    images: Seq<Vec<FaceAnalysis>>,
    clusters: HashMap<i32, Vec<(usize, FaceAnalysis)>>,
    i: int,
    k: int,
)
    requires
        images.len() <= usize::MAX,
        clustered(cluster, params, all_faces(images), Ok(clusters)),
        0 <= i < images.len(),
        0 <= k < images[i]@.len(),
    ensures
        exists|embeddings: Vec<Vec<Binary32>>, labels: Vec<i32>|
            {
                let p = faces_before(images, i) + k;
                let label = labels@[p];
                &&& #[trigger] call_ensures(cluster, (&embeddings, params), Ok(labels))
                &&& embeddings@.len() == labels@.len()
                &&& labels@.len() == faces_before(images, images.len() as int)
                &&& 0 <= p < labels@.len()
                &&& embeddings@[p]@ == images[i]@[k].embedding@
                &&& clusters@.contains_key(label)
                &&& exists|j: int|
                    0 <= j < clusters@[label]@.len() && (#[trigger] clusters@[label]@[j]).0 == i
                        && clusters@[label]@[j].1@ == images[i]@[k]@
            },
{
    let faces = all_faces(images);
    let result = Ok::<HashMap<i32, Vec<(usize, FaceAnalysis)>>, FaceIdError>(clusters);
    let (embeddings, answer) = choose|embeddings: Vec<Vec<Binary32>>, answer: Result<Vec<i32>, String>|
        {
            &&& embeddings@.map_values(|e: Vec<Binary32>| e@) == embeddings_of(faces)
            &&& #[trigger] call_ensures(cluster, (&embeddings, params), answer)
            &&& match answer {
                Err(message) => result matches Err(e) && e@ == FaceIdErrorView::Clustering(message@),
                Ok(labels) => if labels@.len() != faces.len() {
                    result matches Err(e) && e@ == label_count_error(faces.len(), labels@.len())
                } else {
                    result matches Ok(clusters) && grouped(clusters@, faces, labels@)
                },
            }
        };
    assert(answer is Ok);
    let labels = answer->Ok_0;
    law_every_face_has_its_place(images, i, k);
    law_every_face_of_every_image_is_clustered(clusters@, images, labels@, i, k);
    law_embeddings_in_the_order_of_the_faces(images, i, k);
    let p = faces_before(images, i) + k;
    let values = embeddings@.map_values(|e: Vec<Binary32>| e@);
    assert(values.len() == embeddings@.len());
    assert(values[p] == embeddings@[p]@);
    assert(call_ensures(cluster, (&embeddings, params), Ok(labels)));
}

/// A failed clustering says why: what the clustering itself says, or that it gave
/// another number of labels than there are faces.
pub proof fn law_failed_clusterings<C: FnOnce(&Vec<Vec<Binary32>>, ClusterParams) -> Result<Vec<i32>, String>>(
    cluster: C,
    params: ClusterParams,
    faces: Seq<(usize, FaceAnalysisView)>,
    e: FaceIdError,
)
    requires
        clustered(cluster, params, faces, Err(e)),
    ensures
        exists|embeddings: Vec<Vec<Binary32>>, answer: Result<Vec<i32>, String>|
            {
                &&& #[trigger] call_ensures(cluster, (&embeddings, params), answer)
                &&& match answer {
                    Err(message) => e@ == FaceIdErrorView::Clustering(message@),
                    Ok(labels) => labels@.len() != faces.len() && e@ == FaceIdErrorView::Clustering(
                        "Expected "@ + decimal(faces.len()) + " labels, got "@ + decimal(labels@.len()),
                    ),
                }
            },
{
}

} // verus!
