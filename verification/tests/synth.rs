use macroquad_toolkit::synth::{wav_bytes, Wave};

#[test]
fn the_container_is_a_well_formed_wav() {
    let bytes = wav_bytes(&[0, 1, -1, i16::MAX, i16::MIN], 22_050);

    assert_eq!(&bytes[0..4], b"RIFF");
    assert_eq!(&bytes[8..12], b"WAVE");
    assert_eq!(&bytes[12..16], b"fmt ");
    assert_eq!(&bytes[36..40], b"data");
    assert_eq!(u16::from_le_bytes([bytes[20], bytes[21]]), 1);
    assert_eq!(u16::from_le_bytes([bytes[22], bytes[23]]), 1);
    assert_eq!(
        u32::from_le_bytes([bytes[24], bytes[25], bytes[26], bytes[27]]),
        22_050
    );
    assert_eq!(
        u32::from_le_bytes([bytes[28], bytes[29], bytes[30], bytes[31]]),
        44_100
    );
    assert_eq!(u16::from_le_bytes([bytes[34], bytes[35]]), 16);
}

#[test]
fn the_declared_sizes_match_the_real_payload() {
    let pcm: Vec<i16> = (0..1_000).map(|i| (i * 37 - 9_000) as i16).collect();
    let bytes = wav_bytes(&pcm, 8_000);
    let riff = u32::from_le_bytes([bytes[4], bytes[5], bytes[6], bytes[7]]) as usize;
    let data = u32::from_le_bytes([bytes[40], bytes[41], bytes[42], bytes[43]]) as usize;
    assert_eq!(riff, bytes.len() - 8);
    assert_eq!(data, bytes.len() - 44);
}

#[test]
fn samples_are_little_endian_twos_complement() {
    let pcm = [0i16, 1, -1, i16::MAX, i16::MIN, 0x1234];
    let bytes = wav_bytes(&pcm, 22_050);
    for (index, sample) in pcm.iter().enumerate() {
        let at = 44 + index * 2;
        assert_eq!([bytes[at], bytes[at + 1]], sample.to_le_bytes());
    }
}

#[test]
fn an_empty_effect_still_renders_a_valid_file() {
    let bytes = wav_bytes(&[], 22_050);
    assert_eq!(bytes.len(), 44);
    assert_eq!(u32::from_le_bytes([bytes[40], bytes[41], bytes[42], bytes[43]]), 0);
    assert_eq!(u32::from_le_bytes([bytes[4], bytes[5], bytes[6], bytes[7]]), 36);
}

#[test]
fn waves_compare_by_shape() {
    assert_eq!(Wave::Sine, Wave::Sine);
    assert_ne!(Wave::Square, Wave::Noise);
}
