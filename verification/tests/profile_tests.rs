use hifi_vclust::cigar::{get_ref_len, Cigar, CigarOp};
use hifi_vclust::locus::Region;
use hifi_vclust::profile::{get_profile, update_profs, Alignment, Prof, ProfileBuilder, ProfileError};

fn region(start: i64, end: i64) -> Region {
    Region { chrom: "chr1".to_string(), start, end }
}

fn counts(region: &Region) -> (Vec<u32>, Vec<u128>) {
    let len = (region.end - region.start) as usize;
    (vec![0; len], vec![0; len])
}

fn cigar(ref_pos: i64, ops: Vec<CigarOp>) -> Cigar {
    Cigar { ref_pos, ops }
}

fn read(ref_pos: i64, ops: Vec<CigarOp>) -> Alignment {
    Alignment { mapq: 60, secondary: false, supplementary: false, cigar: cigar(ref_pos, ops) }
}

fn ones(len: usize, from: usize, to: usize) -> Vec<u32> {
    (0..len).map(|i| if from <= i && i < to { 1 } else { 0 }).collect()
}

fn wide(v: Vec<u32>) -> Vec<u128> {
    v.into_iter().map(|x| x as u128).collect()
}

#[test]
fn ref_len_of_each_operation() {
    assert_eq!(get_ref_len(&CigarOp::Match(7)), 7);
    assert_eq!(get_ref_len(&CigarOp::RefSkip(8)), 8);
    assert_eq!(get_ref_len(&CigarOp::Del(9)), 9);
    assert_eq!(get_ref_len(&CigarOp::Equal(10)), 10);
    assert_eq!(get_ref_len(&CigarOp::Diff(11)), 11);
    assert_eq!(get_ref_len(&CigarOp::Ins(12)), 0);
    assert_eq!(get_ref_len(&CigarOp::SoftClip(13)), 0);
    assert_eq!(get_ref_len(&CigarOp::HardClip(14)), 0);
    assert_eq!(get_ref_len(&CigarOp::Pad(15)), 0);
    assert_eq!(get_ref_len(&CigarOp::Match(u32::MAX)), 4294967295);
}

#[test]
fn deletion_inside_region_counts_twice_and_is_strong() {
    let r = region(100, 200);
    let (mut covs, mut alts) = counts(&r);
    let rec = cigar(110, vec![CigarOp::Match(10), CigarOp::Del(6), CigarOp::Match(10)]);
    assert_eq!(update_profs(&rec, &mut covs, &mut alts, &r), Ok(true));
    assert_eq!(covs, ones(100, 10, 36));
    assert_eq!(alts, wide(ones(100, 20, 26)));
}

#[test]
fn insertion_adds_its_length_at_the_anchor_only() {
    let r = region(100, 200);
    let (mut covs, mut alts) = counts(&r);
    let rec = cigar(110, vec![CigarOp::Match(10), CigarOp::Ins(8)]);
    assert_eq!(update_profs(&rec, &mut covs, &mut alts, &r), Ok(false));
    let mut expected = vec![0u128; 100];
    expected[20] = 8;
    assert_eq!(alts, expected);
    assert_eq!(covs, ones(100, 10, 20));
    assert_eq!(covs[20], 0);
}

#[test]
fn insertion_between_matches_leaves_coverage_to_the_matches() {
    let r = region(100, 200);
    let (mut covs, mut alts) = counts(&r);
    let rec = cigar(110, vec![CigarOp::Match(10), CigarOp::Ins(8), CigarOp::Match(10)]);
    assert_eq!(update_profs(&rec, &mut covs, &mut alts, &r), Ok(false));
    let mut expected = vec![0u128; 100];
    expected[20] = 8;
    assert_eq!(alts, expected);
    assert_eq!(covs, ones(100, 10, 30));
}

#[test]
fn long_insertion_is_not_strong() {
    let r = region(100, 200);
    let (mut covs, mut alts) = counts(&r);
    let rec = cigar(110, vec![CigarOp::Match(10), CigarOp::Ins(500), CigarOp::Match(10)]);
    assert_eq!(update_profs(&rec, &mut covs, &mut alts, &r), Ok(false));
    assert_eq!(alts[20], 500);
}

#[test]
fn insertion_at_the_first_position_of_the_region_counts() {
    let r = region(100, 120);
    let (mut covs, mut alts) = counts(&r);
    let rec = cigar(90, vec![CigarOp::Match(10), CigarOp::Ins(8), CigarOp::Match(10)]);
    assert_eq!(update_profs(&rec, &mut covs, &mut alts, &r), Ok(false));
    let mut expected = vec![0u128; 20];
    expected[0] = 8;
    assert_eq!(alts, expected);
    assert_eq!(covs, ones(20, 0, 10));
}

#[test]
fn lone_insertion_at_the_first_position_of_the_region_counts() {
    let r = region(100, 120);
    let (mut covs, mut alts) = counts(&r);
    let rec = cigar(100, vec![CigarOp::Ins(8)]);
    assert_eq!(update_profs(&rec, &mut covs, &mut alts, &r), Ok(false));
    let mut expected = vec![0u128; 20];
    expected[0] = 8;
    assert_eq!(alts, expected);
    assert_eq!(covs, vec![0; 20]);
}

#[test]
fn soft_clip_at_the_first_position_of_the_region_counts() {
    let r = region(100, 200);
    let (mut covs, mut alts) = counts(&r);
    let rec = cigar(100, vec![CigarOp::SoftClip(4), CigarOp::Ins(8), CigarOp::Match(5)]);
    assert_eq!(update_profs(&rec, &mut covs, &mut alts, &r), Ok(false));
    let mut expected = vec![0u128; 100];
    expected[0] = 9;
    assert_eq!(alts, expected);
    assert_eq!(covs, ones(100, 0, 5));
}

#[test]
fn anchored_operations_just_before_the_region_are_passed_over() {
    let r = region(100, 200);
    let (mut covs, mut alts) = counts(&r);
    let rec = cigar(99, vec![CigarOp::SoftClip(4), CigarOp::Ins(8), CigarOp::HardClip(2), CigarOp::Pad(1), CigarOp::Match(6)]);
    assert_eq!(update_profs(&rec, &mut covs, &mut alts, &r), Ok(false));
    assert_eq!(alts, vec![0u128; 100]);
    assert_eq!(covs, ones(100, 0, 5));
}

#[test]
fn anchored_operations_at_the_region_end_are_outside() {
    let r = region(100, 200);
    let (mut covs, mut alts) = counts(&r);
    let rec = cigar(190, vec![CigarOp::Match(10), CigarOp::Ins(8), CigarOp::SoftClip(3), CigarOp::HardClip(2)]);
    assert_eq!(update_profs(&rec, &mut covs, &mut alts, &r), Ok(false));
    assert_eq!(alts, vec![0u128; 100]);
    assert_eq!(covs, ones(100, 90, 100));
}

#[test]
fn hard_clip_or_pad_at_the_first_position_of_the_region_is_fatal() {
    let r = region(100, 200);
    for bad in [CigarOp::HardClip(2), CigarOp::Pad(2)] {
        let (mut covs, mut alts) = counts(&r);
        let rec = cigar(100, vec![bad, CigarOp::Match(5)]);
        assert_eq!(update_profs(&rec, &mut covs, &mut alts, &r), Err(ProfileError::UnexpectedOp));
        assert_eq!(covs, vec![0; 100]);
        let rec = cigar(101, vec![bad, CigarOp::Match(5)]);
        assert_eq!(update_profs(&rec, &mut covs, &mut alts, &r), Err(ProfileError::UnexpectedOp));
        let rec = cigar(99, vec![bad, CigarOp::Match(5)]);
        assert_eq!(update_profs(&rec, &mut covs, &mut alts, &r), Ok(false));
    }
}

#[test]
fn soft_clip_adds_one_at_the_anchor() {
    let r = region(100, 200);
    let (mut covs, mut alts) = counts(&r);
    let rec = cigar(110, vec![CigarOp::Match(10), CigarOp::SoftClip(30)]);
    assert_eq!(update_profs(&rec, &mut covs, &mut alts, &r), Ok(false));
    let mut expected = vec![0u128; 100];
    expected[20] = 1;
    assert_eq!(alts, expected);
    assert_eq!(covs, ones(100, 10, 20));
}

#[test]
fn repeated_insertions_at_one_anchor_add_up() {
    let r = region(0, 10);
    let (mut covs, mut alts) = counts(&r);
    let rec = cigar(0, vec![CigarOp::Match(3), CigarOp::Ins(u32::MAX), CigarOp::Ins(u32::MAX), CigarOp::SoftClip(1)]);
    assert_eq!(update_profs(&rec, &mut covs, &mut alts, &r), Ok(false));
    assert_eq!(alts[3], 2 * (u32::MAX as u128) + 1);
}

#[test]
fn operation_is_clipped_to_the_region() {
    let r = region(100, 200);
    let (mut covs, mut alts) = counts(&r);
    let rec = cigar(90, vec![CigarOp::Equal(20), CigarOp::Diff(300)]);
    assert_eq!(update_profs(&rec, &mut covs, &mut alts, &r), Ok(true));
    assert_eq!(covs, ones(100, 0, 100));
    assert_eq!(alts, wide(ones(100, 10, 100)));
}

#[test]
fn operations_before_the_region_are_passed_over() {
    let r = region(100, 200);
    let (mut covs, mut alts) = counts(&r);
    let rec = cigar(10, vec![CigarOp::Del(40), CigarOp::RefSkip(50), CigarOp::Match(3)]);
    assert_eq!(update_profs(&rec, &mut covs, &mut alts, &r), Ok(false));
    assert_eq!(covs, ones(100, 0, 3));
    assert_eq!(alts, vec![0u128; 100]);
}

#[test]
fn walk_stops_past_the_region_end() {
    let r = region(100, 200);
    let (mut covs, mut alts) = counts(&r);
    let rec = cigar(195, vec![CigarOp::Match(10), CigarOp::Del(6), CigarOp::HardClip(5)]);
    assert_eq!(update_profs(&rec, &mut covs, &mut alts, &r), Ok(false));
    assert_eq!(covs, ones(100, 95, 100));
    assert_eq!(alts, vec![0u128; 100]);
}

#[test]
fn strong_evidence_needs_five_overlapped_positions() {
    let r = region(100, 200);
    let (mut covs, mut alts) = counts(&r);
    let rec = cigar(110, vec![CigarOp::Del(4), CigarOp::Diff(4)]);
    assert_eq!(update_profs(&rec, &mut covs, &mut alts, &r), Ok(false));
    let rec = cigar(110, vec![CigarOp::Diff(5)]);
    assert_eq!(update_profs(&rec, &mut covs, &mut alts, &r), Ok(true));
    // ten positions long, of which four lie inside the region
    let rec = cigar(94, vec![CigarOp::Del(10)]);
    assert_eq!(update_profs(&rec, &mut covs, &mut alts, &r), Ok(false));
    let rec = cigar(196, vec![CigarOp::Del(10)]);
    assert_eq!(update_profs(&rec, &mut covs, &mut alts, &r), Ok(false));
    let rec = cigar(195, vec![CigarOp::Del(10)]);
    assert_eq!(update_profs(&rec, &mut covs, &mut alts, &r), Ok(true));
}

#[test]
fn counts_accumulate_over_reads() {
    let r = region(100, 110);
    let (mut covs, mut alts) = counts(&r);
    let rec = cigar(100, vec![CigarOp::Match(4), CigarOp::Del(2), CigarOp::Match(4)]);
    assert_eq!(update_profs(&rec, &mut covs, &mut alts, &r), Ok(false));
    assert_eq!(update_profs(&rec, &mut covs, &mut alts, &r), Ok(false));
    assert_eq!(covs, vec![2; 10]);
    assert_eq!(alts, vec![0, 0, 0, 0, 2, 2, 0, 0, 0, 0]);
}

#[test]
fn unexpected_operation_inside_the_region_is_fatal() {
    let r = region(100, 200);
    for bad in [CigarOp::HardClip(3), CigarOp::Pad(3), CigarOp::RefSkip(3)] {
        let (mut covs, mut alts) = counts(&r);
        let rec = cigar(110, vec![CigarOp::Diff(5), bad, CigarOp::Match(10)]);
        assert_eq!(update_profs(&rec, &mut covs, &mut alts, &r), Err(ProfileError::UnexpectedOp));
        assert_eq!(covs, ones(100, 10, 15));
        assert_eq!(alts, wide(ones(100, 10, 15)));
    }
}

#[test]
fn reference_skip_reaching_into_the_region_is_fatal() {
    let r = region(100, 200);
    let (mut covs, mut alts) = counts(&r);
    let rec = cigar(50, vec![CigarOp::RefSkip(51)]);
    assert_eq!(update_profs(&rec, &mut covs, &mut alts, &r), Err(ProfileError::UnexpectedOp));
    let rec = cigar(50, vec![CigarOp::RefSkip(50)]);
    assert_eq!(update_profs(&rec, &mut covs, &mut alts, &r), Ok(false));
}

#[test]
fn unexpected_operation_outside_the_region_is_harmless() {
    let r = region(100, 200);
    let (mut covs, mut alts) = counts(&r);
    let rec = cigar(90, vec![CigarOp::HardClip(5), CigarOp::Pad(1), CigarOp::Match(120), CigarOp::RefSkip(9), CigarOp::HardClip(2)]);
    assert_eq!(update_profs(&rec, &mut covs, &mut alts, &r), Ok(false));
    assert_eq!(covs, vec![1; 100]);
}

#[test]
fn read_far_from_the_region_changes_nothing() {
    let r = region(100, 200);
    let (mut covs, mut alts) = counts(&r);
    let rec = cigar(i64::MAX, vec![CigarOp::Match(u32::MAX), CigarOp::Del(u32::MAX)]);
    assert_eq!(update_profs(&rec, &mut covs, &mut alts, &r), Ok(false));
    let rec = cigar(i64::MIN, vec![CigarOp::Match(u32::MAX), CigarOp::Del(u32::MAX)]);
    assert_eq!(update_profs(&rec, &mut covs, &mut alts, &r), Ok(false));
    assert_eq!(covs, vec![0; 100]);
    assert_eq!(alts, vec![0; 100]);
}

#[test]
fn empty_region_takes_no_counts() {
    let r = region(100, 100);
    let (mut covs, mut alts) = counts(&r);
    let rec = cigar(90, vec![CigarOp::Match(20), CigarOp::Ins(3)]);
    assert_eq!(update_profs(&rec, &mut covs, &mut alts, &r), Ok(false));
    assert!(covs.is_empty() && alts.is_empty());
}

#[test]
fn profile_has_the_length_of_the_region() {
    let r = region(1000, 1620);
    let reads = vec![read(990, vec![CigarOp::Match(700)]), read(1100, vec![CigarOp::Match(10)])];
    let (prof, any_alt) = get_profile(&reads, &r).unwrap();
    assert_eq!(prof.covs.len(), 620);
    assert_eq!(prof.alts.len(), 620);
    assert!(!any_alt);
    assert_eq!(prof.covs[0], 1);
    assert_eq!(prof.covs[100], 2);
    assert_eq!(prof.covs[109], 2);
    assert_eq!(prof.covs[110], 1);
    assert_eq!(prof.coverage(), 630);
}

#[test]
fn profile_of_no_reads_is_all_zero() {
    let r = region(5, 9);
    let (prof, any_alt) = get_profile(&vec![], &r).unwrap();
    assert_eq!(prof, Prof { alts: vec![0; 4], covs: vec![0; 4] });
    assert!(!any_alt);
}

#[test]
fn secondary_supplementary_and_poorly_mapped_reads_are_left_out() {
    let r = region(100, 110);
    let ops = vec![CigarOp::Del(10)];
    let mut reads = vec![read(100, ops.clone()); 4];
    reads[0].secondary = true;
    reads[1].supplementary = true;
    reads[2].mapq = 49;
    reads[3].mapq = 50;
    let (prof, any_alt) = get_profile(&reads, &r).unwrap();
    assert_eq!(prof.covs, vec![1; 10]);
    assert_eq!(prof.alts, vec![1; 10]);
    assert!(!any_alt);
}

#[test]
fn left_out_reads_may_be_malformed() {
    let r = region(100, 110);
    let mut bad = read(102, vec![CigarOp::HardClip(3)]);
    bad.secondary = true;
    assert!(get_profile(&vec![bad], &r).is_ok());
}

#[test]
fn three_strong_reads_make_a_sample_altered() {
    let r = region(100, 200);
    let strong = read(120, vec![CigarOp::Del(6)]);
    let weak = read(120, vec![CigarOp::Del(4)]);
    let (_, any_alt) = get_profile(&vec![strong.clone(), weak.clone(), strong.clone()], &r).unwrap();
    assert!(!any_alt);
    let (prof, any_alt) = get_profile(&vec![strong.clone(), weak, strong.clone(), strong], &r).unwrap();
    assert!(any_alt);
    assert_eq!(prof.alts[20], 4);
    assert_eq!(prof.alts[24], 3);
    assert_eq!(prof.covs[25], 3);
}

#[test]
fn two_hundred_reads_are_a_profile() {
    let r = region(100, 110);
    let reads = vec![read(100, vec![CigarOp::Match(10)]); 200];
    let (prof, _) = get_profile(&reads, &r).unwrap();
    assert_eq!(prof.covs, vec![200; 10]);
}

#[test]
fn one_read_more_is_high_depth() {
    let r = region(100, 110);
    let reads = vec![read(100, vec![CigarOp::Match(10)]); 201];
    assert_eq!(get_profile(&reads, &r), Err(ProfileError::HighDepth));
}

#[test]
fn left_out_reads_count_towards_the_position_but_do_not_fail() {
    let r = region(100, 110);
    let mut reads = vec![read(100, vec![CigarOp::Match(10)]); 205];
    for k in 150..205 {
        reads[k].mapq = 0;
    }
    let (prof, _) = get_profile(&reads, &r).unwrap();
    assert_eq!(prof.covs, vec![150; 10]);
    // a retained read after two hundred others, retained or not, is one too many
    reads[204].mapq = 60;
    assert_eq!(get_profile(&reads, &r), Err(ProfileError::HighDepth));
}

#[test]
fn malformed_read_fails_the_profile() {
    let r = region(100, 110);
    let reads = vec![read(100, vec![CigarOp::Match(10)]), read(100, vec![CigarOp::Match(2), CigarOp::Pad(1)])];
    assert_eq!(get_profile(&reads, &r), Err(ProfileError::UnexpectedOp));
}

#[test]
fn malformed_read_counts_before_the_depth() {
    let r = region(100, 110);
    let mut reads = vec![read(100, vec![CigarOp::Match(10)]); 201];
    reads[200] = read(100, vec![CigarOp::RefSkip(4)]);
    assert_eq!(get_profile(&reads, &r), Err(ProfileError::UnexpectedOp));
    reads[200] = read(100, vec![CigarOp::Match(4)]);
    reads.push(read(100, vec![CigarOp::RefSkip(4)]));
    assert_eq!(get_profile(&reads, &r), Err(ProfileError::HighDepth));
}

#[test]
fn mean_depth_is_compared_exactly() {
    let prof = Prof { alts: vec![0; 4], covs: vec![5, 5, 5, 4] };
    assert_eq!(prof.coverage(), 19);
    assert!(prof.depth_at_least(4));
    assert!(!prof.depth_at_least(5));
    let prof = Prof { alts: vec![0; 4], covs: vec![9, 1, 5, 5] };
    assert!(prof.depth_at_least(5));
    assert!(!prof.depth_at_least(6));
    let prof = Prof { alts: vec![], covs: vec![] };
    assert!(!prof.depth_at_least(0));
    let prof = Prof { alts: vec![0; 3], covs: vec![u32::MAX; 3] };
    assert_eq!(prof.coverage(), 3 * (u32::MAX as u128));
    assert!(prof.depth_at_least(u32::MAX));
}

#[test]
fn same_reads_give_the_same_profile() {
    let r = region(100, 200);
    let reads = vec![
        read(90, vec![CigarOp::SoftClip(12), CigarOp::Match(30), CigarOp::Ins(7), CigarOp::Diff(9), CigarOp::Equal(80)]),
        read(150, vec![CigarOp::Del(5), CigarOp::Match(100)]),
    ];
    let first = get_profile(&reads, &r);
    let second = get_profile(&reads, &r);
    assert_eq!(first, second);
    let (prof, any_alt) = first.unwrap();
    assert!(!any_alt);
    assert_eq!(prof.covs[19], 1);
    assert_eq!(prof.covs[50], 2);
    assert_eq!(prof.alts[20], 8);
    assert_eq!(prof.alts[28], 1);
    assert_eq!(prof.alts[29], 0);
    assert_eq!(prof.alts[54], 1);
}

#[test]
fn primary_reads_of_quality_fifty_are_retained() {
    let mut r = read(0, vec![]);
    assert!(r.retained());
    r.mapq = 50;
    assert!(r.retained());
    r.mapq = 49;
    assert!(!r.retained());
    r.mapq = 255;
    r.secondary = true;
    assert!(!r.retained());
    r.secondary = false;
    r.supplementary = true;
    assert!(!r.retained());
}

#[test]
fn builder_takes_reads_one_by_one() {
    let r = region(100, 110);
    let mut builder = ProfileBuilder::new(&r);
    let strong = read(100, vec![CigarOp::Match(2), CigarOp::Del(6), CigarOp::Match(2)]);
    let mut skipped = read(100, vec![CigarOp::Del(10)]);
    skipped.supplementary = true;
    for _ in 0..3 {
        assert_eq!(builder.push(&strong), Ok(()));
        assert_eq!(builder.push(&skipped), Ok(()));
    }
    let (prof, any_alt) = builder.finish().unwrap();
    assert!(any_alt);
    assert_eq!(prof, Prof { alts: vec![0, 0, 3, 3, 3, 3, 3, 3, 0, 0], covs: vec![3; 10] });
}

#[test]
fn builder_without_reads_gives_the_empty_profile() {
    let r = region(100, 104);
    assert_eq!(ProfileBuilder::new(&r).finish(), Ok((Prof { alts: vec![0; 4], covs: vec![0; 4] }, false)));
}

#[test]
fn builder_agrees_with_the_profile_of_all_reads() {
    let r = region(100, 200);
    let reads = vec![
        read(90, vec![CigarOp::SoftClip(12), CigarOp::Match(30), CigarOp::Ins(7), CigarOp::Diff(9), CigarOp::Equal(80)]),
        read(100, vec![CigarOp::Ins(2), CigarOp::Match(100)]),
        read(150, vec![CigarOp::Del(5), CigarOp::Match(100)]),
    ];
    let mut builder = ProfileBuilder::new(&r);
    for one in &reads {
        assert_eq!(builder.push(one), Ok(()));
    }
    assert_eq!(builder.finish(), get_profile(&reads, &r));
}

#[test]
fn builder_fails_at_the_read_after_two_hundred() {
    let r = region(100, 110);
    let mut builder = ProfileBuilder::new(&r);
    let one = read(100, vec![CigarOp::Match(10)]);
    for _ in 0..200 {
        assert_eq!(builder.push(&one), Ok(()));
    }
    assert_eq!(builder.push(&one), Err(ProfileError::HighDepth));
    // nothing is taken after the failure
    assert_eq!(builder.push(&one), Err(ProfileError::HighDepth));
    assert_eq!(builder.push(&read(100, vec![CigarOp::Pad(1)])), Err(ProfileError::HighDepth));
    assert_eq!(builder.finish(), Err(ProfileError::HighDepth));
}

#[test]
fn builder_fails_at_a_malformed_read() {
    let r = region(100, 110);
    let mut builder = ProfileBuilder::new(&r);
    assert_eq!(builder.push(&read(100, vec![CigarOp::Match(10)])), Ok(()));
    assert_eq!(builder.push(&read(100, vec![CigarOp::Match(3), CigarOp::RefSkip(2)])), Err(ProfileError::UnexpectedOp));
    assert_eq!(builder.push(&read(100, vec![CigarOp::Match(10)])), Err(ProfileError::UnexpectedOp));
    assert_eq!(builder.finish(), Err(ProfileError::UnexpectedOp));
}

#[test]
fn builder_passes_over_left_out_reads_beyond_two_hundred() {
    let r = region(100, 110);
    let mut builder = ProfileBuilder::new(&r);
    let mut out = read(100, vec![CigarOp::HardClip(10)]);
    out.mapq = 10;
    for _ in 0..1000 {
        assert_eq!(builder.push(&out), Ok(()));
    }
    assert_eq!(builder.push(&read(100, vec![CigarOp::Match(10)])), Err(ProfileError::HighDepth));
}
