use bae_utils::sample::{Sample, SAMPLE_SCALE};
use bae_utils::sample_conversion::{sample_from_i16, sample_from_i24, sample_from_u8};
use bae_utils::wave::{
    tracks_from_i16, tracks_from_i24, tracks_from_u8, WaveData, WaveError, WaveWriteOptions,
};

fn track(nums: &[i64]) -> Vec<Sample> {
    nums.iter().map(|&n| Sample::from_num(n)).collect()
}

#[test]
fn bit_depth_is_rejected_at_configuration_time() {
    let mut opts = WaveWriteOptions::new();
    assert!(opts.bps(12).is_err());
    assert_eq!(opts.bps, 0);
    assert!(opts.bps(8).is_ok());
    assert!(opts.bps(16).is_ok());
    assert!(opts.bps(24).is_ok());
    assert!(opts.bps(32).is_err());
    assert_eq!(opts.bps, 24);
}

#[test]
fn builder_sets_rate_and_clip() {
    let mut opts = WaveWriteOptions::new();
    opts.r(48_000);
    opts.clip(true);
    assert_eq!(opts.r, 48_000);
    assert!(opts.clip);
}

#[test]
fn prepare_rejects_empty_track_list() {
    let mut opts = WaveWriteOptions::new();
    opts.bps(16).unwrap();
    assert_eq!(opts.prepare(Vec::new()), Err(WaveError::NoChannels));
}

#[test]
fn prepare_rejects_mismatched_channel_lengths() {
    let mut opts = WaveWriteOptions::new();
    opts.bps(16).unwrap();
    let tracks = vec![track(&[0, 1]), track(&[0])];
    assert_eq!(opts.prepare(tracks), Err(WaveError::MismatchedLengths));
}

#[test]
fn prepare_rejects_unset_bit_depth() {
    let opts = WaveWriteOptions::new();
    let tracks = vec![track(&[0, 1])];
    assert_eq!(opts.prepare(tracks), Err(WaveError::UnsupportedBitDepth));
}

#[test]
fn clipping_caps_loud_samples_at_full_scale() {
    // A sample of 1.5 with clip on encodes to the maximum word, never a
    // wrapped value.
    let loud = vec![track(&[3 * SAMPLE_SCALE / 2])];
    let mut opts = WaveWriteOptions::new();
    opts.clip(true);
    opts.bps(16).unwrap();
    match opts.prepare(loud.clone()).unwrap() {
        WaveData::Sixteen(v) => assert_eq!(v, vec![0x7FFF]),
        _ => panic!("wrong payload depth"),
    }
    opts.bps(24).unwrap();
    match opts.prepare(loud.clone()).unwrap() {
        WaveData::TwentyFour(v) => assert_eq!(v, vec![0x7F_FFFF]),
        _ => panic!("wrong payload depth"),
    }
    opts.bps(8).unwrap();
    match opts.prepare(loud).unwrap() {
        WaveData::Eight(v) => assert_eq!(v, vec![255]),
        _ => panic!("wrong payload depth"),
    }
}

#[test]
fn prepare_interleaves_channels_in_frame_order() {
    let left = track(&[0, SAMPLE_SCALE]);
    let right = track(&[-SAMPLE_SCALE, 0]);
    let mut opts = WaveWriteOptions::new();
    opts.bps(8).unwrap();
    match opts.prepare(vec![left, right]).unwrap() {
        WaveData::Eight(v) => assert_eq!(v, vec![128, 0, 255, 128]),
        _ => panic!("wrong payload depth"),
    }
}

#[test]
fn prepare_and_deinterleave_round_trip() {
    // Words decoded from i16 re-encode to the same words and come back to
    // the same per-channel samples.
    let words: Vec<i16> = vec![100, -200, 300, -400, 500, -600];
    let tracks = tracks_from_i16(2, words.clone());
    assert_eq!(tracks.len(), 2);
    let mut opts = WaveWriteOptions::new();
    opts.bps(16).unwrap();
    match opts.prepare(tracks).unwrap() {
        WaveData::Sixteen(v) => assert_eq!(v, words),
        _ => panic!("wrong payload depth"),
    }
}

#[test]
fn deinterleave_u8_assigns_words_round_robin() {
    let tracks = tracks_from_u8(2, vec![0, 128, 255, 128]);
    assert_eq!(tracks.len(), 2);
    assert_eq!(tracks[0][0].num(), sample_from_u8(0).num());
    assert_eq!(tracks[0][1].num(), sample_from_u8(255).num());
    assert_eq!(tracks[1][0].num(), sample_from_u8(128).num());
    assert_eq!(tracks[1][1].num(), sample_from_u8(128).num());
}

#[test]
fn deinterleave_handles_ragged_tail() {
    // Three words over two channels: the first channel gets one more.
    let tracks = tracks_from_u8(2, vec![1, 2, 3]);
    assert_eq!(tracks[0].len(), 2);
    assert_eq!(tracks[1].len(), 1);
    assert_eq!(tracks[0][1].num(), sample_from_u8(3).num());
}

#[test]
fn deinterleave_i24_decodes_words() {
    let tracks = tracks_from_i24(1, vec![0x7F_FFFF, -1, 0]);
    assert_eq!(tracks.len(), 1);
    assert_eq!(tracks[0][0].num(), sample_from_i24(0x7F_FFFF).num());
    assert_eq!(tracks[0][1].num(), sample_from_i24(-1).num());
    assert_eq!(tracks[0][2].num(), 0);
}

#[test]
fn deinterleave_empty_data_yields_empty_tracks() {
    let tracks = tracks_from_i16(3, Vec::new());
    assert_eq!(tracks.len(), 3);
    assert!(tracks.iter().all(|t| t.is_empty()));
}
