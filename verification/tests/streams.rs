use scene_tools::clip_reader::ViewRecord;
use scene_tools::streams::{are_picks_fitting, cut_view, list_indices, read_images, read_indices};

const FILE: &str = r#"{
  "asset": {"version": "2.0"},
  "buffers": [{"byteLength": 36}, {"byteLength": 4}],
  "bufferViews": [
    {"buffer": 0, "byteLength": 12},
    {"buffer": 0, "byteOffset": 12, "byteLength": 6},
    {"buffer": 0, "byteOffset": 18, "byteLength": 3},
    {"buffer": 0, "byteOffset": 24, "byteLength": 12},
    {"buffer": 1, "byteOffset": 1, "byteLength": 3},
    {"buffer": 0, "byteOffset": 21, "byteLength": 1},
    {"buffer": 0, "byteOffset": 22, "byteLength": 2}
  ],
  "accessors": [
    {"bufferView": 0, "componentType": 5126, "count": 1, "type": "VEC3",
      "min": [0, 0, 0], "max": [0, 0, 0]},
    {"bufferView": 1, "componentType": 5123, "count": 3, "type": "SCALAR"},
    {"bufferView": 2, "componentType": 5121, "count": 3, "type": "SCALAR"},
    {"bufferView": 3, "componentType": 5125, "count": 3, "type": "SCALAR"},
    {"bufferView": 1, "componentType": 5123, "count": 3, "type": "SCALAR",
      "sparse": {"count": 1, "indices": {"bufferView": 5, "componentType": 5121},
        "values": {"bufferView": 6}}}
  ],
  "images": [{"bufferView": 4, "mimeType": "image/png"}, {"uri": "bark.png"}],
  "meshes": [
    {"primitives": [
      {"attributes": {"POSITION": 0}, "indices": 1},
      {"attributes": {"POSITION": 0}, "indices": 2}
    ]},
    {"primitives": [
      {"attributes": {"POSITION": 0}, "indices": 3},
      {"attributes": {"POSITION": 0}},
      {"attributes": {"POSITION": 0}, "indices": 4}
    ]}
  ]
}"#;

fn file() -> Vec<u8> {
    FILE.as_bytes().to_vec()
}

fn buffers() -> Vec<Vec<u8>> {
    let mut first = vec![0u8; 12];
    first.extend([1, 0, 2, 0, 0, 1]);
    first.extend([7, 8, 9]);
    first.extend([1, 4, 1]);
    first.extend([5, 0, 0, 0, 0, 0, 1, 0, 255, 255, 255, 255]);
    vec![first, vec![9, 1, 2, 3]]
}

#[test]
fn images_are_cut_from_their_buffer() {
    assert_eq!(read_images(&file(), &buffers()), Ok(vec![Some(vec![1, 2, 3]), None]));
    assert_eq!(read_images(&file(), &vec![]), Ok(vec![None, None]));
    let short = vec![vec![], vec![9, 1, 2]];
    assert_eq!(read_images(&file(), &short), Ok(vec![None, None]));
    assert!(read_images(&b"{}".to_vec(), &buffers()).is_err());
}

#[test]
fn views_are_ranges_of_a_buffer() {
    let view = |buffer, offset, length| ViewRecord { buffer, offset, length, stride: None };
    let data = vec![vec![1, 2, 3], vec![4]];
    assert_eq!(cut_view(&view(0, 1, 2), &data), Some(vec![2, 3]));
    assert_eq!(cut_view(&view(1, 1, 0), &data), Some(vec![]));
    assert_eq!(cut_view(&view(1, 0, 2), &data), None);
    assert_eq!(cut_view(&view(1, 2, 0), &data), None);
    assert_eq!(cut_view(&view(2, 0, 0), &data), None);
    assert_eq!(cut_view(&view(0, usize::MAX, usize::MAX), &data), None);
}

#[test]
fn indices_are_numbers_of_any_width() {
    let picks = vec![(1, 0), (0, 0), (0, 1), (1, 1), (1, 2)];
    assert_eq!(
        read_indices(&file(), &buffers(), &picks),
        Ok(vec![
            Some(vec![5, 65536, u32::MAX]),
            Some(vec![1, 2, 256]),
            Some(vec![7, 8, 9]),
            None,
            Some(vec![1, 260, 256]),
        ])
    );
    assert_eq!(read_indices(&file(), &vec![], &vec![(0, 0)]), Ok(vec![None]));
    assert_eq!(read_indices(&file(), &buffers(), &vec![]), Ok(vec![]));
}

#[test]
fn indices_that_cannot_be_read_are_refused() {
    let failure = |text: String, pick| read_indices(&text.into_bytes(), &buffers(), &vec![pick]);
    let wrong = Err("the indices of a primitive cannot be read".to_string());
    assert_eq!(failure(FILE.to_string(), (2, 0)), wrong);
    assert_eq!(failure(FILE.to_string(), (0, 2)), wrong);
    let signed = FILE.replace("\"componentType\": 5121, \"count\"", "\"componentType\": 5120, \"count\"");
    assert_eq!(failure(signed.clone(), (0, 1)), wrong);
    assert_eq!(failure(signed, (0, 0)), Ok(vec![Some(vec![1, 2, 256])]));
    assert!(failure(FILE.replace("\"indices\": 3", "\"indices\": 30"), (1, 0)).is_err());
    assert!(failure("{}".to_string(), (0, 0)).is_err());
    assert!(are_picks_fitting(&vec![vec![None]], &vec![], &vec![], &vec![(0, 0)]));
    assert!(!are_picks_fitting(&vec![vec![Some(0)]], &vec![], &vec![], &vec![(0, 0)]));
}

#[test]
fn primitives_without_indices_list_their_vertices() {
    assert_eq!(list_indices(None, 4), vec![0, 1, 2, 3]);
    assert!(list_indices(None, 0).is_empty());
    assert_eq!(list_indices(Some(vec![2, 0]), 4), vec![2, 0]);
}
