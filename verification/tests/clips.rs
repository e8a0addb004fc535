use scene_tools::clip_reader::{
    is_channel_fitting, join_samples, pick_channels, transcode_gltf, AccessorRecord, Animated, Curve,
    SamplerRecord, TargetRecord, ViewRecord,
};
use scene_tools::clip_targets::{transcode_animclip, Keys, Sample};
use scene_tools::document::parse_document;
use scene_tools::tree::grow_all;

const CLIP: &str = r#"{
  "asset": {"version": "2.0"},
  "scene": 0,
  "scenes": [{"nodes": [0]}],
  "nodes": [{"name": "root", "children": [1]}, {"name": "arm"}],
  "buffers": [{"byteLength": 72}],
  "bufferViews": [
    {"buffer": 0, "byteLength": 8},
    {"buffer": 0, "byteOffset": 8, "byteLength": 24},
    {"buffer": 0, "byteOffset": 32, "byteLength": 8}
  ],
  "accessors": [
    {"bufferView": 0, "componentType": 5126, "count": 2, "type": "SCALAR"},
    {"bufferView": 1, "componentType": 5126, "count": 2, "type": "VEC3"},
    {"bufferView": 2, "componentType": 5122, "normalized": true, "count": 1, "type": "VEC4"}
  ],
  "animations": [{
    "samplers": [
      {"input": 0, "output": 1},
      {"input": 0, "output": 1, "interpolation": "STEP"},
      {"input": 0, "output": 2}
    ],
    "channels": [
      {"sampler": 0, "target": {"node": 1, "path": "translation"}},
      {"sampler": 1, "target": {"node": 0, "path": "scale"}},
      {"sampler": 2, "target": {"node": 0, "path": "rotation"}}
    ]
  }]
}"#;

fn buffer() -> Vec<u8> {
    let floats: [f32; 8] = [0.0, 0.5, 1.0, 2.0, 3.0, 4.0, 5.0, 6.0];
    let mut out: Vec<u8> = floats.iter().flat_map(|v| v.to_le_bytes()).collect();
    for v in [0i16, 0, 0, 32767] {
        out.extend(v.to_le_bytes());
    }
    out.resize(72, 0);
    out
}

fn bits(values: &[f32]) -> Vec<u32> {
    values.iter().map(|v| v.to_bits()).collect()
}

fn failure(text: &str, buffers: &Vec<Vec<u8>>) -> String {
    match transcode_gltf(&text.as_bytes().to_vec(), buffers) {
        Err(e) => e,
        Ok(_) => unreachable!(),
    }
}

#[test]
fn animations_are_packed_from_bytes() {
    let bytes = CLIP.as_bytes().to_vec();
    let clip = transcode_gltf(&bytes, &vec![buffer()]).unwrap_or_else(|e| panic!("{e}"));
    assert_eq!((clip.targets, clip.skipped), (2, 1));
    let doc = parse_document(&bytes).unwrap_or_else(|e| panic!("{e}"));
    let trees = grow_all(&doc.nodes, &vec![0]).unwrap();
    let samples = vec![
        Sample {
            node: 1,
            linear: true,
            times: Some(bits(&[0.0, 0.5])),
            keys: Keys::Translations(bits(&[1.0, 2.0, 3.0, 4.0, 5.0, 6.0])),
        },
        Sample { node: 0, linear: false, times: None, keys: Keys::Other },
        Sample {
            node: 0,
            linear: true,
            times: Some(bits(&[0.0, 0.5])),
            keys: Keys::Rotations(bits(&[0.0, 0.0, 0.0, 1.0])),
        },
    ];
    assert_eq!(clip.bytes, transcode_animclip(&doc, &trees, &samples).bytes);
    assert_eq!(&clip.bytes[..12], b"ANIMCLP\x01\x02\0\0\0");
}

#[test]
fn channels_without_their_buffer_are_left_out() {
    let clip = transcode_gltf(&CLIP.as_bytes().to_vec(), &Vec::new());
    let clip = clip.unwrap_or_else(|e| panic!("{e}"));
    assert_eq!((clip.targets, clip.skipped), (0, 1));
}

#[test]
fn unreadable_channels_are_refused() {
    let buffers = vec![buffer()];
    let wrong = "an animation channel cannot be read";
    for (from, to) in [
        (r#""node": 1, "path""#, r#""node": 9, "path""#),
        (r#""path": "translation""#, r#""path": "colour""#),
        (r#""path": "translation""#, r#""path": "weights""#),
        (r#""componentType": 5122"#, r#""componentType": 5125"#),
        (r#""count": 2, "type": "VEC3""#, r#""count": 0, "type": "VEC3""#),
        (r#""count": 2, "type": "VEC3""#, r#""count": 2, "type": "VEC2""#),
        (r#""byteOffset": 8, "byteLength": 24"#, r#""byteOffset": 8, "byteLength": 24, "byteStride": 8"#),
        (r#""byteOffset": 8,"#, r#""byteOffset": 18446744073709551615,"#),
    ] {
        assert!(CLIP.contains(from), "{from}");
        assert_eq!(failure(&CLIP.replace(from, to), &buffers), wrong, "{to}");
    }
    let looped = CLIP.replace(r#"{"name": "arm"}"#, r#"{"name": "arm", "children": [0]}"#);
    assert_eq!(failure(&looped, &buffers), "nodes form no tree");
    assert!(transcode_gltf(&b"{}".to_vec(), &buffers).is_err());
    let unread = CLIP.replace(
        r#"{"input": 0, "output": 1, "interpolation": "STEP"}"#,
        r#"{"input": 1, "output": 0, "interpolation": "STEP"}"#,
    );
    assert!(transcode_gltf(&unread.into_bytes(), &buffers).is_ok());
}

#[test]
fn linear_channels_are_picked() {
    let view = ViewRecord { buffer: 0, offset: 0, length: 100, stride: None };
    let plain = |component: u32, size: usize, count: usize| AccessorRecord {
        component,
        size,
        count,
        offset: 0,
        view: Some(0),
        sparse: None,
    };
    let accessors = vec![plain(5126, 4, 2), plain(5121, 4, 2), plain(5125, 16, 2)];
    let target = |path| TargetRecord { node: 0, path: Some(path) };
    let sampler = |curve, output| SamplerRecord { curve, input: 0, output };
    let fits = |path, output| {
        is_channel_fitting(&target(path), &sampler(Curve::Linear, output), 1, &accessors, &vec![view])
    };
    assert!(fits(Animated::Rotation, 1));
    assert!(!fits(Animated::Rotation, 2));
    assert!(!fits(Animated::Scale, 1));
    assert!(!fits(Animated::Rotation, 3));
    let targets = vec![target(Animated::Scale), target(Animated::Rotation)];
    let samplers = vec![sampler(Curve::Step, 2), sampler(Curve::Linear, 1)];
    let picks = pick_channels(&targets, &samplers, 1, &accessors, &vec![view]);
    assert_eq!(picks, Some(vec![1]));
    assert_eq!(pick_channels(&targets, &samplers, 0, &accessors, &vec![view]), None);
    let samples = join_samples(&targets, &samplers, &vec![Some(vec![7])], &vec![Some(vec![8])]);
    assert!(!samples[0].linear && samples[0].times.is_none());
    assert!(samples[1].linear && samples[1].times == Some(vec![7]));
    assert!(matches!(&samples[1].keys, Keys::Rotations(v) if *v == vec![8]));
    let lost = join_samples(&targets, &samplers, &vec![None], &vec![None]);
    assert!(matches!(lost[1].keys, Keys::Other));
}

#[test]
fn sparse_values_are_put_in_place() {
    let sparse = CLIP
        .replace(
            r#"{"bufferView": 1, "componentType": 5126, "count": 2, "type": "VEC3"}"#,
            r#"{"componentType": 5126, "count": 2, "type": "VEC3", "sparse": {"count": 1,
              "indices": {"bufferView": 3, "componentType": 5123}, "values": {"bufferView": 1}}}"#,
        )
        .replace(
            r#"{"buffer": 0, "byteOffset": 32, "byteLength": 8}"#,
            r#"{"buffer": 0, "byteOffset": 32, "byteLength": 8},
            {"buffer": 0, "byteOffset": 40, "byteLength": 2}"#,
        );
    let mut data = buffer();
    data[40] = 1;
    let clip = transcode_gltf(&sparse.clone().into_bytes(), &vec![data]);
    let clip = clip.unwrap_or_else(|e| panic!("{e}"));
    let zeros_then_one: Vec<u8> =
        [0f32, 0.0, 0.0, 1.0, 2.0, 3.0].iter().flat_map(|v| v.to_le_bytes()).collect();
    assert!(clip.bytes.ends_with(&zeros_then_one));
    let none = sparse.replace(r#""sparse": {"count": 1"#, r#""sparse": {"count": 0"#);
    assert_eq!(failure(&none, &vec![buffer()]), "an animation channel cannot be read");
}

#[test]
fn packing_again_changes_no_byte() {
    let bytes = CLIP.as_bytes().to_vec();
    let pack = || transcode_gltf(&bytes, &vec![buffer()]).unwrap_or_else(|e| panic!("{e}"));
    let (a, b) = (pack(), pack());
    assert_eq!((a.bytes, a.targets, a.skipped), (b.bytes, b.targets, b.skipped));
}
