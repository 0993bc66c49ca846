use jaali::{Backend, GpuError, HitBuffers, MAX_HITS_2D, MAX_HITS_3D};

fn cpu_buffers(max_queries: usize, max_hits: usize, backend: Backend) -> HitBuffers {
    HitBuffers::new_with_capacity(max_queries, max_hits)
        .with_backend(backend)
        .expect("backend init failed")
}

#[test]
fn new_buffers_are_cleared_and_serial() {
    let b = HitBuffers::new_with_capacity(3, 4);
    assert_eq!(b.max_hits, 4);
    assert_eq!(b.indices, vec![-1; 12]);
    assert_eq!(b.counts, vec![0u16; 3]);
    assert_eq!(b.backend, Backend::Serial);
}

#[test]
fn default_capacities() {
    assert_eq!(MAX_HITS_2D, 32);
    assert_eq!(MAX_HITS_3D, 64);
}

#[test]
fn gpu_backend_falls_back_to_serial() {
    let b = HitBuffers::new_with_capacity(2, 4)
        .with_backend(Backend::GPU)
        .expect("falls back gracefully");
    assert_eq!(b.backend, Backend::Serial);
    assert_eq!(b.indices, vec![-1; 8]);
    assert_eq!(b.counts, vec![0u16; 2]);
}

#[test]
fn gpu_fallback_locates_as_serial() {
    let cands: Vec<Vec<i32>> = vec![vec![7, 3, 5], vec![], vec![2], vec![9, 0]];
    let mut g = HitBuffers::new_with_capacity(0, MAX_HITS_3D)
        .with_backend(Backend::GPU)
        .unwrap();
    let mut s = cpu_buffers(0, MAX_HITS_3D, Backend::Serial);
    assert_eq!(g.locate(&cands).unwrap(), s.locate(&cands).unwrap());
    assert_eq!(g.indices, s.indices);
    assert_eq!(g.counts, s.counts);
}

// A vertex shared by 32 tetrahedra: all 32 are candidates, the least owns it.
#[test]
fn star_vertex_of_32_tets_owned_by_0() {
    let mut ids: Vec<i32> = (0..32).collect();
    ids.reverse();
    ids.swap(3, 17);
    let cands = vec![ids];
    let mut b = HitBuffers::new_with_capacity(0, MAX_HITS_3D);
    b.locate_all(&cands).unwrap();
    assert_eq!(b.counts[0], 32);
    let out = b.locate(&cands).unwrap();
    assert_eq!(out, vec![0]);
}

// Points outside a cube meshed into tetrahedra have no candidates.
#[test]
fn outside_points_give_minus_one() {
    let cands: Vec<Vec<i32>> = vec![vec![], vec![], vec![]];
    for backend in [Backend::Serial, Backend::ParallelCPU, Backend::GPU] {
        let mut b = HitBuffers::new_with_capacity(0, MAX_HITS_3D).with_backend(backend).unwrap();
        assert_eq!(b.locate(&cands).unwrap(), vec![-1, -1, -1]);
        assert_eq!(b.counts, vec![0, 0, 0]);
    }
}

// The layout holds after batches of changing sizes.
#[test]
fn variable_batch_sizes_keep_layout() {
    let mut b = HitBuffers::new_with_capacity(0, 8);
    for &n in &[1usize, 7, 64, 513, 3, 128] {
        let cands: Vec<Vec<i32>> =
            (0..n).map(|q| (0..(q % 11)).map(|i| ((q * 7 + i * 3) % 97) as i32).collect()).collect();
        b.locate_all(&cands).unwrap();
        assert!(b.indices.len() >= n * b.max_hits);
        assert!(b.counts.len() >= n);
        for q in 0..n {
            let c = b.counts[q] as usize;
            assert!(c <= b.max_hits);
            assert_eq!(c, cands[q].len().min(8));
            for i in 0..c {
                assert!(b.indices[q * b.max_hits + i] >= 0);
                assert_eq!(b.indices[q * b.max_hits + i], cands[q][i]);
            }
        }
    }
}

#[test]
fn cpu_backends_are_selected() {
    for backend in [Backend::Serial, Backend::ParallelCPU] {
        let b = cpu_buffers(2, 4, backend);
        assert_eq!(b.backend, backend);
        assert_eq!(b.indices.len(), 8);
        assert_eq!(b.counts.len(), 2);
    }
}

// Single triangle: inside, on an edge, on a vertex, outside.
#[test]
fn boundary_cases_counts() {
    for backend in [Backend::Serial, Backend::ParallelCPU] {
        let mut b = cpu_buffers(0, 4, backend);
        let cands = vec![vec![0], vec![0], vec![0], vec![]];
        b.locate_all(&cands).unwrap();
        assert_eq!(b.counts, vec![1, 1, 1, 0]);
        assert_eq!(b.indices[0], 0);
        assert_eq!(b.indices[4], 0);
        assert_eq!(b.indices[8], 0);
        assert_eq!(b.indices.len(), 16);
    }
}

// The centre of a square split into 8 triangles lies in all of them.
#[test]
fn center_shared_by_8_triangles() {
    let mut b = HitBuffers::new_with_capacity(0, MAX_HITS_2D);
    let cands = vec![vec![4, 0, 5, 1, 6, 2, 7, 3]];
    b.locate_all(&cands).unwrap();
    assert_eq!(b.counts[0], 8);
    let mut hits: Vec<i32> = b.indices[0..8].to_vec();
    hits.sort();
    assert_eq!(hits, vec![0, 1, 2, 3, 4, 5, 6, 7]);
    let out = b.locate(&cands).unwrap();
    assert_eq!(out, vec![0]);
}

#[test]
fn locate_returns_minimum_candidate() {
    let mut b = HitBuffers::new_with_capacity(0, 8);
    let cands = vec![vec![5, 2, 9], vec![], vec![3], vec![7, 7, 1]];
    let out = b.locate(&cands).unwrap();
    assert_eq!(out, vec![2, -1, 3, 1]);
}

#[test]
fn locate_matches_min_of_locate_all() {
    let cands = vec![vec![11, 4, 8], vec![2], vec![], vec![9, 6]];
    let mut all = HitBuffers::new_with_capacity(0, 5);
    all.locate_all(&cands).unwrap();
    let mut one = HitBuffers::new_with_capacity(0, 5);
    let out = one.locate(&cands).unwrap();
    for q in 0..cands.len() {
        let c = all.counts[q] as usize;
        let expected = if c > 0 {
            *all.indices[q * 5..q * 5 + c].iter().min().unwrap()
        } else {
            -1
        };
        assert_eq!(out[q], expected);
    }
    assert_eq!(one.indices, all.indices);
    assert_eq!(one.counts, all.counts);
}

#[test]
fn owner_does_not_depend_on_order() {
    let mut b = HitBuffers::new_with_capacity(0, 8);
    let a = b.locate(&vec![vec![3, 1, 2]]).unwrap();
    let c = b.locate(&vec![vec![2, 3, 1, 1]]).unwrap();
    assert_eq!(a, c);
    assert_eq!(a, vec![1]);
}

#[test]
fn hits_are_capped_at_max_hits() {
    let mut b = HitBuffers::new_with_capacity(1, 4);
    let cands = vec![vec![9, 8, 7, 6, 5, 4]];
    b.locate_all(&cands).unwrap();
    assert_eq!(b.counts[0], 4);
    assert_eq!(b.indices, vec![9, 8, 7, 6]);
    // The owner is the least of the kept candidates.
    let out = b.locate(&cands).unwrap();
    assert_eq!(out, vec![6]);
}

#[test]
fn counter_is_sixteen_bits() {
    let mut b = HitBuffers::new_with_capacity(0, 70_000);
    let cands = vec![(0..66_000).collect::<Vec<i32>>()];
    b.locate_all(&cands).unwrap();
    assert_eq!(b.counts[0], (66_000usize as u16));
    assert_eq!(b.counts[0], 464);
}

#[test]
fn zero_capacity_records_nothing() {
    let mut b = HitBuffers::new_with_capacity(2, 0);
    let out = b.locate(&vec![vec![1, 2], vec![3]]).unwrap();
    assert_eq!(out, vec![-1, -1]);
    assert_eq!(b.counts, vec![0, 0]);
    assert!(b.indices.is_empty());
}

#[test]
fn buffers_grow_and_keep_stale_slots() {
    let mut b = HitBuffers::new_with_capacity(0, 3);
    b.locate_all(&vec![vec![1, 2, 3], vec![4, 5, 6]]).unwrap();
    assert_eq!(b.indices, vec![1, 2, 3, 4, 5, 6]);
    b.locate_all(&vec![vec![7]]).unwrap();
    // Only the first slot of query 0 is rewritten; its count says so.
    assert_eq!(b.indices, vec![7, 2, 3, 4, 5, 6]);
    assert_eq!(b.counts, vec![1, 3]);
    b.locate_all(&vec![vec![], vec![], vec![8, 9]]).unwrap();
    assert_eq!(b.indices, vec![7, 2, 3, 4, 5, 6, 8, 9, -1]);
    assert_eq!(b.counts, vec![0, 0, 2]);
}

#[test]
fn repeated_locate_all_is_idempotent() {
    let cands = vec![vec![3, 1], vec![], vec![2, 2, 2]];
    let mut b = HitBuffers::new_with_capacity(1, 4);
    b.locate_all(&cands).unwrap();
    let (i1, c1) = (b.indices.clone(), b.counts.clone());
    for _ in 0..5 {
        b.locate_all(&cands).unwrap();
        assert_eq!(b.indices, i1);
        assert_eq!(b.counts, c1);
    }
}

#[test]
fn serial_and_parallel_agree() {
    let cands: Vec<Vec<i32>> = (0..50).map(|q| (0..(q % 7)).map(|i| (q * 13 + i * 5) % 31).collect()).collect();
    let mut s = cpu_buffers(0, 4, Backend::Serial);
    let mut p = cpu_buffers(0, 4, Backend::ParallelCPU);
    let os = s.locate(&cands).unwrap();
    let op = p.locate(&cands).unwrap();
    assert_eq!(os, op);
    assert_eq!(s.indices, p.indices);
    assert_eq!(s.counts, p.counts);
}

#[test]
fn gpu_buffers_grow_then_fail() {
    let mut b = HitBuffers::new_with_capacity(0, 2);
    b.backend = Backend::GPU;
    let r = b.locate_all(&vec![vec![1], vec![2]]);
    assert!(matches!(r, Err(GpuError::Unavailable)));
    assert_eq!(b.indices, vec![-1; 4]);
    assert_eq!(b.counts, vec![0; 2]);
    assert!(matches!(b.locate(&vec![vec![1]]), Err(GpuError::Unavailable)));
}
