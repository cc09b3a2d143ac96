use eruptrace::bih::{get_bih_data, Bih, BihNode, BihNodeData, BihNodeType, BihNodeUniform, BoundingBox};
use eruptrace::mesh::{Point2, Point3, Triangle};

fn p(x: i32, y: i32, z: i32) -> Point3 {
    Point3 { x, y, z }
}

fn tri(a: Point3, b: Point3, c: Point3, material_index: u32) -> Triangle {
    Triangle {
        positions: [a, b, c],
        normals: [p(0, 0, 1); 3],
        texcoords: [Point2 { x: 0, y: 0 }; 3],
        material_index,
    }
}

fn leaf_sum(bih: &Bih) -> usize {
    bih.0
        .iter()
        .map(|n| match n.data {
            BihNodeData::Leaf { count, .. } => count,
            BihNodeData::Branch { .. } => 0,
        })
        .sum()
}

#[test]
fn empty_scene_has_one_empty_leaf() {
    let mut tris: Vec<Triangle> = vec![];
    let bih = Bih::new(&mut tris);
    assert_eq!(bih.0.len(), 1);
    assert_eq!(bih.0[0].ty, BihNodeType::Leaf);
    assert_eq!(bih.0[0].data, BihNodeData::Leaf { triangle_index: 0, count: 0 });
}

#[test]
fn single_triangle_is_one_leaf() {
    let mut tris = vec![tri(p(0, 0, 0), p(1, 0, 0), p(0, 1, 0), 7)];
    let bih = Bih::new(&mut tris);
    assert_eq!(bih.0.len(), 1);
    assert_eq!(bih.0[0].data, BihNodeData::Leaf { triangle_index: 0, count: 1 });
    assert_eq!(tris[0].material_index, 7);
}

#[test]
fn two_triangles_split_on_widest_axis() {
    // Far apart along x: the box is widest on x, so the split is across x.
    let right = tri(p(10, 0, 0), p(11, 0, 0), p(10, 1, 0), 1);
    let left = tri(p(0, 0, 0), p(1, 0, 0), p(0, 1, 0), 0);
    let mut tris = vec![right, left];
    let bih = Bih::new(&mut tris);
    assert_eq!(bih.0.len(), 3);
    assert_eq!(bih.0[0].ty, BihNodeType::X);
    assert_eq!(
        bih.0[0].data,
        BihNodeData::Branch { clip_left: 1, clip_right: 10, child_left: 1, child_right: 2 }
    );
    // The triangle that goes left now comes first.
    assert_eq!(tris[0].material_index, 0);
    assert_eq!(tris[1].material_index, 1);
    assert_eq!(bih.0[1].data, BihNodeData::Leaf { triangle_index: 0, count: 1 });
    assert_eq!(bih.0[2].data, BihNodeData::Leaf { triangle_index: 1, count: 1 });
}

#[test]
fn split_falls_back_to_next_axis() {
    // The box is widest on x, but both triangles have the same centre on x;
    // they differ on y, the next axis tried.
    let low = tri(p(0, 0, 0), p(100, 0, 0), p(0, 1, 0), 0);
    let high = tri(p(0, 50, 0), p(100, 50, 0), p(0, 51, 0), 1);
    let mut tris = vec![high, low];
    let bih = Bih::new(&mut tris);
    assert_eq!(bih.0[0].ty, BihNodeType::Y);
    assert_eq!(
        bih.0[0].data,
        BihNodeData::Branch { clip_left: 1, clip_right: 50, child_left: 1, child_right: 2 }
    );
    assert_eq!(tris[0].material_index, 0);
}

#[test]
fn identical_triangles_stay_one_leaf() {
    let t = tri(p(0, 0, 0), p(1, 0, 0), p(0, 1, 0), 3);
    let mut tris = vec![t, t, t];
    let bih = Bih::new(&mut tris);
    assert_eq!(bih.0.len(), 1);
    assert_eq!(bih.0[0].data, BihNodeData::Leaf { triangle_index: 0, count: 3 });
}

#[test]
fn leaves_hold_every_triangle_once() {
    let mut tris = Vec::new();
    for i in 0..37 {
        let x = (i * 7919 % 101) as i32;
        let y = (i * 104729 % 89) as i32;
        let z = (i * 31 % 17) as i32;
        tris.push(tri(p(x, y, z), p(x + 2, y, z), p(x, y + 3, z + 1), i as u32));
    }
    let input_order: Vec<u32> = tris.iter().map(|t| t.material_index).collect();
    let bih = Bih::new(&mut tris);
    assert_eq!(leaf_sum(&bih), 37);
    // The triangles are a reordering of the input.
    let mut after: Vec<u32> = tris.iter().map(|t| t.material_index).collect();
    after.sort();
    let mut before = input_order.clone();
    before.sort();
    assert_eq!(after, before);
    // Every position is in exactly one leaf.
    let mut seen = vec![0; 37];
    for n in bih.0.iter() {
        if let BihNodeData::Leaf { triangle_index, count } = n.data {
            for k in triangle_index..triangle_index + count {
                seen[k] += 1;
            }
        }
    }
    assert!(seen.iter().all(|&c| c == 1));
    // The nodes form one tree: node 0 has no parent, every other node exactly one,
    // every leaf holds a triangle, and there are one node fewer than twice the leaves.
    let mut parents = vec![0; bih.0.len()];
    let mut leaves = 0;
    for n in bih.0.iter() {
        match n.data {
            BihNodeData::Branch { child_left, child_right, .. } => {
                assert_eq!(child_right, child_left + 1);
                parents[child_left] += 1;
                parents[child_right] += 1;
            }
            BihNodeData::Leaf { count, .. } => {
                assert!(count >= 1);
                leaves += 1;
            }
        }
    }
    assert_eq!(parents[0], 0);
    assert!(parents[1..].iter().all(|&c| c == 1));
    assert_eq!(bih.0.len(), 2 * leaves - 1);
    assert!(bih.0.len() <= 2 * 37 - 1);
    // The nodes below a split are numbered from its children on: the two children,
    // then the nodes below the left child, then those below the right one.
    fn below(bih: &Bih, i: usize) -> (usize, usize) {
        match bih.0[i].data {
            BihNodeData::Leaf { .. } => (0, 0),
            BihNodeData::Branch { child_left, child_right, .. } => {
                let (llo, lhi) = below(bih, child_left);
                let (rlo, rhi) = below(bih, child_right);
                let left_end = if llo == lhi { child_right + 1 } else { assert_eq!(llo, child_right + 1); lhi };
                if rlo != rhi {
                    assert_eq!(rlo, left_end);
                }
                (child_left, if rlo == rhi { left_end } else { rhi })
            }
        }
    }
    assert_eq!(below(&bih, 0), (1, bih.0.len()));
    // Children come after their parent, and the clipping planes bound the parts.
    fn range(bih: &Bih, i: usize) -> (usize, usize) {
        match bih.0[i].data {
            BihNodeData::Leaf { triangle_index, count } => (triangle_index, triangle_index + count),
            BihNodeData::Branch { child_left, child_right, .. } => (range(bih, child_left).0, range(bih, child_right).1),
        }
    }
    for (i, n) in bih.0.iter().enumerate() {
        if let BihNodeData::Branch { clip_left, clip_right, child_left, child_right } = n.data {
            assert!(child_left > i && child_right > i);
            let axis = n.ty.to_u32() as usize;
            let (llo, lhi) = range(&bih, child_left);
            let (rlo, rhi) = range(&bih, child_right);
            assert_eq!(lhi, rlo);
            assert!(tris[llo..lhi].iter().all(|t| t.bounds().max.at(axis) <= clip_left));
            assert!(tris[llo..lhi].iter().any(|t| t.bounds().max.at(axis) == clip_left));
            assert!(tris[rlo..rhi].iter().all(|t| t.bounds().min.at(axis) >= clip_right));
            assert!(tris[rlo..rhi].iter().any(|t| t.bounds().min.at(axis) == clip_right));
        }
    }
}

#[test]
fn node_type_numbers() {
    assert_eq!(BihNodeType::n(0), Some(BihNodeType::X));
    assert_eq!(BihNodeType::n(1), Some(BihNodeType::Y));
    assert_eq!(BihNodeType::n(2), Some(BihNodeType::Z));
    assert_eq!(BihNodeType::n(3), Some(BihNodeType::Leaf));
    assert_eq!(BihNodeType::n(4), None);
    assert_eq!(BihNodeType::Z.to_u32(), 2);
    assert_eq!(BihNodeType::Leaf.to_u32(), 3);
}

#[test]
fn nodes_in_gpu_layout() {
    let branch = BihNode {
        ty: BihNodeType::Y,
        data: BihNodeData::Branch { clip_left: -5, clip_right: 8, child_left: 3, child_right: 4 },
    };
    assert_eq!(
        branch.into_uniform(),
        BihNodeUniform { node_type: 1, child_left: 3, child_right: 4, clip_left: -5, clip_right: 8 }
    );
    let leaf = BihNode { ty: BihNodeType::Leaf, data: BihNodeData::Leaf { triangle_index: 6, count: 2 } };
    assert_eq!(
        leaf.into_uniform(),
        BihNodeUniform { node_type: 3, child_left: 6, child_right: 2, clip_left: 0, clip_right: 0 }
    );
    let data = get_bih_data(Bih(vec![branch, leaf]));
    assert_eq!(data.len(), 2);
    assert_eq!(data[1].child_left, 6);
}

#[test]
fn box_centre_is_doubled() {
    let b = BoundingBox { min: p(-3, 0, 4), max: p(5, 1, 4) };
    assert_eq!(b.centre(), [2, 1, 8]);
    assert_eq!(BihNode::default().data, BihNodeData::Leaf { triangle_index: 0, count: 0 });
}
