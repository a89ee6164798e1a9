use crochet_generator::chunks::{ChunkList, CHUNK_SIZE};
use crochet_generator::geometry::{segment_intersect, IVec3, RationalPoint};
use crochet_generator::connect::{parent_or_sparse, ConnectError};
use crochet_generator::processor_state::{poll, start_command, ProcessorPhase, StartAction};
use crochet_generator::representations::{NodeOnFace, StitchFormatChoice, StitchPoint};

fn v(x: i64, y: i64, z: i64) -> IVec3 {
    IVec3 { x, y, z }
}

#[test]
fn segments_cross_at_exact_point() {
    let n = v(0, 0, 1);
    let p = segment_intersect(n, v(0, 0, 0), v(4, 4, 0), v(0, 4, 0), v(4, 0, 0), 0).unwrap();
    assert_eq!(p.x * 2, p.w * 4);
    assert_eq!(p.y * 2, p.w * 4);
    assert_eq!(p.z, 0);
    assert_eq!(p, RationalPoint { x: -64, y: -64, z: 0, w: -32 });
}

#[test]
fn parallel_or_missing_segments_do_not_meet() {
    let n = v(0, 0, 1);
    assert_eq!(segment_intersect(n, v(0, 0, 0), v(4, 0, 0), v(0, 1, 0), v(4, 1, 0), 0), None);
    assert_eq!(segment_intersect(n, v(0, 0, 0), v(1, 1, 0), v(0, 4, 0), v(4, 0, 0), 0), None);
}

#[test]
fn touching_end_counts_as_meeting() {
    let n = v(0, 0, 1);
    let p = segment_intersect(n, v(0, 0, 0), v(2, 2, 0), v(2, 2, 0), v(4, 0, 0), 0).unwrap();
    assert_eq!(p.x, 2 * p.w);
    assert_eq!(p.y, 2 * p.w);
}

#[test]
fn tolerance_counts_near_parallel_segments_as_parallel() {
    let n = v(0, 0, 1);
    // den is -32 here: a tolerance above 32 counts the segments as parallel.
    assert!(segment_intersect(n, v(0, 0, 0), v(4, 4, 0), v(0, 4, 0), v(4, 0, 0), 32).is_some());
    assert_eq!(segment_intersect(n, v(0, 0, 0), v(4, 4, 0), v(0, 4, 0), v(4, 0, 0), 33), None);
}

#[test]
fn swapped_segments_and_flipped_normal() {
    let n = v(0, 0, 1);
    let p = segment_intersect(n, v(0, 0, 0), v(4, 4, 0), v(0, 4, 0), v(4, 0, 0), 0).unwrap();
    let q = segment_intersect(n, v(0, 4, 0), v(4, 0, 0), v(0, 0, 0), v(4, 4, 0), 0).unwrap();
    assert_eq!(p.x * q.w, q.x * p.w);
    assert_eq!(p.y * q.w, q.y * p.w);
    let f = segment_intersect(v(0, 0, -1), v(0, 0, 0), v(4, 4, 0), v(0, 4, 0), v(4, 0, 0), 0).unwrap();
    assert_eq!(f, RationalPoint { x: -p.x, y: -p.y, z: -p.z, w: -p.w });
    assert_eq!(segment_intersect(n, v(0, 0, 0), v(1, 1, 0), v(0, 4, 0), v(4, 0, 0), 0), None);
    assert_eq!(segment_intersect(n, v(0, 4, 0), v(4, 0, 0), v(0, 0, 0), v(1, 1, 0), 0), None);
}

#[test]
fn walk_without_parent_means_sparse_mesh() {
    assert_eq!(parent_or_sparse(Some(7)).ok(), Some(7));
    assert!(matches!(parent_or_sparse::<u32>(None), Err(ConnectError::MeshTooSparseNearSeed)));
}

#[test]
fn chunks_fill_one_after_another() {
    let mut l: ChunkList<u32> = ChunkList::new();
    assert!(l.needs_new_chunk());
    for i in 0..(CHUNK_SIZE as u32 + 3) {
        if l.needs_new_chunk() {
            l.open_chunk();
        }
        l.push(i);
    }
    assert_eq!(l.chunk_count(), 2);
    assert_eq!(l.chunk(0).len(), CHUNK_SIZE);
    assert_eq!(l.chunk(1), &vec![1024, 1025, 1026]);
    assert!(l.is_dirty(1));
    l.mark_clean(1);
    assert!(!l.is_dirty(1));
    assert!(l.is_dirty(0));
    l.clear();
    assert_eq!(l.chunk_count(), 0);
}

#[test]
fn add_opens_chunks_as_needed_and_upload_clears() {
    let mut l: ChunkList<u32> = ChunkList::new();
    let mut opened = 0;
    for i in 0..(2 * CHUNK_SIZE as u32 + 1) {
        if l.add(i) {
            opened += 1;
        }
    }
    assert_eq!(opened, 3);
    assert_eq!(l.chunk(2), &vec![2048]);
    assert_eq!(l.take_dirty(), vec![0, 1, 2]);
    assert_eq!(l.take_dirty(), Vec::<usize>::new());
    l.add(7);
    assert_eq!(l.take_dirty(), vec![2]);
    assert_eq!(l.chunk(2), &vec![2048, 7]);
}

#[test]
fn processor_phases() {
    assert_eq!(start_command(ProcessorPhase::Idle), (StartAction::CreateAndRun, ProcessorPhase::Running));
    assert_eq!(start_command(ProcessorPhase::Empty), (StartAction::Run, ProcessorPhase::Running));
    assert_eq!(start_command(ProcessorPhase::Running), (StartAction::Ignore, ProcessorPhase::Running));
    assert_eq!(start_command(ProcessorPhase::Finished), (StartAction::Ignore, ProcessorPhase::Finished));
    assert_eq!(poll(ProcessorPhase::Running, false), (ProcessorPhase::Running, false));
    assert_eq!(poll(ProcessorPhase::Running, true), (ProcessorPhase::Empty, true));
    assert_eq!(poll(ProcessorPhase::Finished, false), (ProcessorPhase::Empty, true));
    assert_eq!(poll(ProcessorPhase::Idle, true), (ProcessorPhase::Idle, false));
}

#[test]
fn node_on_face_from_stitch_point() {
    let s = StitchPoint { pos: (1.5f32, 2.0f32, 3.0f32), face: 7, isoline_index: 3 };
    let n: NodeOnFace<(f32, f32, f32)> = NodeOnFace::from(s);
    assert_eq!(n.face, 7);
    assert_eq!(n.pos, (1.5, 2.0, 3.0));
    assert_ne!(StitchFormatChoice::Worded, StitchFormatChoice::StitchPoint);
}
