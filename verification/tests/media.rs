use sigil_core::media::{ChunkPlan, MediaKind, MediaNormalization, MediaPlanError, MediaTransferPlan};

#[test]
fn chunk_count_rounds_up_without_overflow_formula() {
    let plan = ChunkPlan::new(130_000, 64_000).unwrap();
    assert_eq!(plan.chunk_count, 3);
}

#[test]
fn image_plan_requires_pixel_reencode() {
    let plan = MediaTransferPlan::image(10_000, 4096).unwrap();
    assert_eq!(plan.kind, MediaKind::Image);
    assert_eq!(
        plan.normalization,
        MediaNormalization::DecodePixelsAndReencode
    );
}

#[test]
fn voice_plan_requires_pcm_to_opus_normalization() {
    let plan = MediaTransferPlan::voice(10_000, 4096).unwrap();
    assert_eq!(plan.kind, MediaKind::Voice);
    assert_eq!(plan.normalization, MediaNormalization::PcmToOpus);
}

#[test]
fn empty_media_and_zero_chunk_sizes_are_rejected() {
    assert_eq!(ChunkPlan::new(0, 4096), Err(MediaPlanError::EmptyMedia));
    assert_eq!(
        ChunkPlan::new(100, 0),
        Err(MediaPlanError::InvalidChunkSize)
    );
}

#[test]
fn chunk_counts_at_the_edges() {
    assert_eq!(ChunkPlan::new(1, 1).unwrap().chunk_count, 1);
    assert_eq!(ChunkPlan::new(4096, 4096).unwrap().chunk_count, 1);
    assert_eq!(ChunkPlan::new(4097, 4096).unwrap().chunk_count, 2);
    assert_eq!(ChunkPlan::new(usize::MAX, 1).unwrap().chunk_count, usize::MAX);
    assert_eq!(ChunkPlan::new(usize::MAX, usize::MAX).unwrap().chunk_count, 1);
    let plan = ChunkPlan::new(10_000, 4096).unwrap();
    assert_eq!((plan.plaintext_len, plan.chunk_size, plan.chunk_count), (10_000, 4096, 3));
}

#[test]
fn media_plans_carry_their_chunk_plan_and_errors() {
    let plan = MediaTransferPlan::image(10_000, 4096).unwrap();
    assert_eq!(plan.chunks, ChunkPlan::new(10_000, 4096).unwrap());
    assert_eq!(MediaTransferPlan::voice(0, 10), Err(MediaPlanError::EmptyMedia));
    assert_eq!(MediaTransferPlan::image(10, 0), Err(MediaPlanError::InvalidChunkSize));
}
