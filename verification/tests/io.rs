//! Weight files.
use qlora::io::npy::{parse_header, read_npy_bytes, write_npy_bytes, RawArray};
use qlora::io::npz::crc32;
use qlora::io::{read_npy, read_npz, read_safetensors, write_npz, IoError, NamedArray};

fn bits(v: &[f32]) -> Vec<u32> {
    v.iter().map(|x| x.to_bits()).collect()
}

fn floats(v: &[u32]) -> Vec<f32> {
    v.iter().map(|x| f32::from_bits(*x)).collect()
}

fn approx(a: &[f32], b: &[f32], tol: f32) {
    assert_eq!(a.len(), b.len());
    for (i, (x, y)) in a.iter().zip(b.iter()).enumerate() {
        assert!((x - y).abs() <= tol, "elem {i}: {x} vs {y}");
    }
}

/// An `.npy` file as numpy lays it out.
fn npy(descr: &str, fortran: bool, shape: &str, data: &[u8]) -> Vec<u8> {
    let order = if fortran { "True" } else { "False" };
    let mut header = format!("{{'descr': '{descr}', 'fortran_order': {order}, 'shape': {shape}, }}");
    while (10 + header.len() + 1) % 64 != 0 {
        header.push(' ');
    }
    header.push('\n');
    let mut out = b"\x93NUMPY\x01\x00".to_vec();
    out.extend_from_slice(&(header.len() as u16).to_le_bytes());
    out.extend_from_slice(header.as_bytes());
    out.extend_from_slice(data);
    out
}

/// A ZIP archive as `np.savez` lays it out: stored entries, whose local
/// headers carry an extra field.
fn zip(entries: &[(&str, Vec<u8>)], method: u16, flags: u16) -> Vec<u8> {
    let mut out: Vec<u8> = Vec::new();
    let mut central: Vec<u8> = Vec::new();
    for (name, data) in entries {
        let offset = out.len() as u32;
        let crc = crc32(data);
        let extra = [1u8, 0, 16, 0, 0, 0, 0, 0, 0, 0, 0, 0, 0, 0, 0, 0, 0, 0, 0, 0];
        out.extend_from_slice(b"PK\x03\x04");
        for v in [45u16, flags, method, 0, 0x21] {
            out.extend_from_slice(&v.to_le_bytes());
        }
        for v in [crc, data.len() as u32, data.len() as u32] {
            out.extend_from_slice(&v.to_le_bytes());
        }
        out.extend_from_slice(&(name.len() as u16).to_le_bytes());
        out.extend_from_slice(&(extra.len() as u16).to_le_bytes());
        out.extend_from_slice(name.as_bytes());
        out.extend_from_slice(&extra);
        out.extend_from_slice(data);
        central.extend_from_slice(b"PK\x01\x02");
        for v in [0x032du16, 45, flags, method, 0, 0x21] {
            central.extend_from_slice(&v.to_le_bytes());
        }
        for v in [crc, data.len() as u32, data.len() as u32] {
            central.extend_from_slice(&v.to_le_bytes());
        }
        central.extend_from_slice(&(name.len() as u16).to_le_bytes());
        for v in [0u16, 0, 0, 0] {
            central.extend_from_slice(&v.to_le_bytes());
        }
        central.extend_from_slice(&0x0180_0000u32.to_le_bytes());
        central.extend_from_slice(&offset.to_le_bytes());
        central.extend_from_slice(name.as_bytes());
    }
    let start = out.len() as u32;
    out.extend_from_slice(&central);
    out.extend_from_slice(b"PK\x05\x06\0\0\0\0");
    for _ in 0..2 {
        out.extend_from_slice(&(entries.len() as u16).to_le_bytes());
    }
    out.extend_from_slice(&(central.len() as u32).to_le_bytes());
    out.extend_from_slice(&start.to_le_bytes());
    out.extend_from_slice(&[0, 0]);
    out
}

fn f32_bytes(v: &[f32]) -> Vec<u8> {
    v.iter().flat_map(|x| x.to_le_bytes()).collect()
}

#[test]
fn write_then_read_roundtrip() {
    let data: Vec<f32> = (0..24).map(|i| i as f32 * 0.5 - 3.0).collect();
    let bytes = write_npy_bytes(&[2, 3, 4], &bits(&data));
    // Preamble + header is 64-aligned like numpy's.
    assert_eq!((bytes.len() - data.len() * 4) % 64, 0);
    let back = read_npy_bytes(&bytes).unwrap();
    assert_eq!(back.shape, vec![2, 3, 4]);
    assert_eq!(floats(&back.data), data);
}

#[test]
fn header_parse_edge_cases() {
    let (d, f, s) =
        parse_header("{'descr': '<f8', 'fortran_order': True, 'shape': (5,), }").unwrap();
    assert_eq!((d, f, s), ("<f8".to_string(), true, vec![5]));
    let (_, _, s) =
        parse_header("{'descr': '|u1', 'fortran_order': False, 'shape': (), }").unwrap();
    assert_eq!(s, Vec::<usize>::new());
}

#[test]
fn crc32_known_value() {
    assert_eq!(crc32(b"123456789"), 0xCBF43926);
}

#[test]
fn empty_archive_roundtrip() {
    let bytes = write_npz(&[]);
    let back = read_npz(&bytes).unwrap();
    assert!(back.is_empty());
}

#[test]
fn garbage_is_malformed_not_panic() {
    assert!(read_npz(&[]).is_err());
    assert!(read_npz(&[0u8; 100]).is_err());
    assert!(read_npz(b"PK\x05\x06not-a-zip-at-all-padded....").is_err());
}

fn synthetic() -> Vec<u8> {
    // {"a": F32[2], "b": BF16[3]} with data.
    let header = r#"{"a":{"dtype":"F32","shape":[2],"data_offsets":[0,8]},"b":{"dtype":"BF16","shape":[3],"data_offsets":[8,14]}}"#;
    let mut out = Vec::new();
    out.extend_from_slice(&(header.len() as u64).to_le_bytes());
    out.extend_from_slice(header.as_bytes());
    out.extend_from_slice(&1.5f32.to_le_bytes());
    out.extend_from_slice(&(-2.0f32).to_le_bytes());
    for &v in &[1.0f32, -0.5, 0.0] {
        out.extend_from_slice(&((v.to_bits() >> 16) as u16).to_le_bytes());
    }
    out
}

#[test]
fn synthetic_header_roundtrip() {
    let arrays = read_safetensors(&synthetic()).unwrap();
    assert_eq!(arrays.len(), 2);
    assert_eq!(arrays[0].name, "a");
    assert_eq!(arrays[0].shape, vec![2]);
    assert_eq!(floats(&arrays[0].data), vec![1.5, -2.0]);
    assert_eq!(arrays[1].name, "b");
    assert_eq!(floats(&arrays[1].data), vec![1.0, -0.5, 0.0]);
}

#[test]
fn rejects_garbage_and_bad_offsets() {
    assert!(read_safetensors(&[]).is_err());
    assert!(read_safetensors(&[1u8; 100]).is_err());
    let mut bad = synthetic();
    bad[8] = b'X'; // corrupt JSON
    assert!(read_safetensors(&bad).is_err());
}

#[test]
fn numpy_multi_array_npz() {
    let mut w = vec![-1.2590655f32, 1.5139238, 1.3458754];
    w.extend((3..32).map(|i| i as f32 / 7.0));
    let steps: Vec<u8> = (0..6i64).flat_map(|i| i.to_le_bytes()).collect();
    let archive = zip(
        &[
            ("w.npy", npy("<f4", false, "(4, 8)", &f32_bytes(&w))),
            ("b.npy", npy("<f4", false, "(8,)", &[0; 32])),
            ("steps.npy", npy("<i8", false, "(2, 3)", &steps)),
        ],
        0,
        0,
    );
    let arrays = read_npz(&archive).unwrap();
    assert_eq!(arrays.len(), 3);
    assert_eq!(arrays[0].name, "w");
    assert_eq!(arrays[1].name, "b");
    assert_eq!(arrays[2].name, "steps");
    let w = NamedArray::find(&arrays, "w").unwrap();
    assert_eq!(w.shape, vec![4, 8]);
    assert_eq!(w.numel(), 32);
    approx(&floats(&w.data)[..3], &[-1.2590655, 1.5139238, 1.3458754], 1e-7);
    let b = NamedArray::find(&arrays, "b").unwrap();
    assert!(floats(&b.data).iter().all(|&v| v == 0.0));
    let steps = NamedArray::find(&arrays, "steps").unwrap();
    assert_eq!(steps.shape, vec![2, 3]);
    assert_eq!(&floats(&steps.data), &[0.0, 1.0, 2.0, 3.0, 4.0, 5.0]);
    assert!(NamedArray::find(&arrays, "none").is_none());
}

#[test]
fn our_writer_roundtrips_through_real_numpy() {
    // Only the way back to this reader: NumPy itself is not run here. What it
    // needs, the header layout and the CRC, other tests look at.
    let data: Vec<f32> = (0..24).map(|i| i as f32).collect();
    let raw = bits(&data);
    let bytes = write_npz(&[("w", &[4, 6], &raw), ("b", &[6], &raw[..6])]);
    let back = read_npz(&bytes).unwrap();
    assert_eq!(back.len(), 2);
    assert_eq!(floats(&back[0].data), data);
    assert_eq!(floats(&back[1].data), data[..6]);
}

#[test]
fn archives_keep_names_shapes_and_bits() {
    let odd = [f32::NAN.to_bits(), 0x8000_0000, 1, f32::INFINITY.to_bits()];
    let bytes = write_npz(&[("a.b/c", &[2, 2], &odd), ("scalar", &[], &odd[..1]), ("none", &[0], &[])]);
    let back = read_npz(&bytes).unwrap();
    assert_eq!(back.len(), 3);
    assert_eq!((back[0].name.as_str(), &back[0].shape, &back[0].data[..]), ("a.b/c", &vec![2, 2], &odd[..]));
    assert_eq!((back[1].name.as_str(), back[1].shape.len(), back[1].data[0]), ("scalar", 0, odd[0]));
    assert_eq!((back[2].name.as_str(), &back[2].shape, back[2].data.len()), ("none", &vec![0], 0));
}

#[test]
fn element_types_convert() {
    let read = |descr: &str, data: &[u8]| -> Vec<f32> {
        let shape = "(2,)";
        floats(&read_npy(&npy(descr, false, shape, data)).unwrap().data)
    };
    assert_eq!(read("<f8", &[1.5f64.to_le_bytes(), (-2.25f64).to_le_bytes()].concat()), [1.5, -2.25]);
    assert_eq!(read(">f4", &[1.5f32.to_be_bytes(), (-2.25f32).to_be_bytes()].concat()), [1.5, -2.25]);
    assert_eq!(read("<f2", &[0x00, 0x3C, 0x00, 0xC0]), [1.0, -2.0]);
    assert_eq!(read("<i8", &[(-3i64).to_le_bytes(), i64::MAX.to_le_bytes()].concat()), [-3.0, i64::MAX as f32]);
    assert_eq!(read("<i4", &[7i32.to_le_bytes(), (-8i32).to_le_bytes()].concat()), [7.0, -8.0]);
    assert_eq!(read(">i2", &[1, 0, 255, 255]), [256.0, -1.0]);
    assert_eq!(read("<i1", &[0x80, 0x7F]), [-128.0, 127.0]);
    assert_eq!(read("<u8", &[1u64.to_le_bytes(), u64::MAX.to_le_bytes()].concat()), [1.0, u64::MAX as f32]);
    assert_eq!(read("<u4", &[1u32.to_le_bytes(), u32::MAX.to_le_bytes()].concat()), [1.0, u32::MAX as f32]);
    assert_eq!(read("<u2", &[1, 2, 3, 4]), [513.0, 1027.0]);
    assert_eq!(read("|u1", &[5, 255]), [5.0, 255.0]);
    assert_eq!(read("|b1", &[0, 1]), [0.0, 1.0]);
}

#[test]
fn element_types_outside_the_list_are_unsupported() {
    for descr in [
        "|u4", "|u2", "|u8", "|i1", "|f4", "<b1", ">b1", "|b2", "<f+4", "<f04", "<u04", "<f1", "<f16", "=f4", "f4", "<u3",
    ] {
        let e = read_npy(&npy(descr, false, "(0,)", &[])).unwrap_err();
        assert_eq!(e.message(), format!("unsupported: dtype {descr:?}"));
    }
    for descr in ["<f2", ">f8", "<i1", ">i1", "<u1", ">u1", ">u8", "|u1", "|b1"] {
        assert!(read_npy(&npy(descr, false, "(0,)", &[])).is_ok());
    }
}

#[test]
fn a_wrong_shape_is_malformed_on_reading() {
    let data = bits(&[1.0, 2.0, 3.0]);
    for shape in [&[2usize][..], &[4], &[2, 2], &[], &[0], &[usize::MAX, 2]] {
        let e = read_npz(&write_npz(&[("w", shape, &data)])).unwrap_err();
        assert!(e.message().starts_with("malformed input: \"w.npy\": npy "), "{}", e.message());
    }
}

#[test]
fn fortran_order_becomes_c_order() {
    // Column by column: [[1, 2, 3], [4, 5, 6]].
    let file = npy("<f4", true, "(2, 3)", &f32_bytes(&[1.0, 4.0, 2.0, 5.0, 3.0, 6.0]));
    let a = read_npy(&file).unwrap();
    assert_eq!(a.shape, vec![2, 3]);
    assert_eq!(floats(&a.data), [1.0, 2.0, 3.0, 4.0, 5.0, 6.0]);
}

#[test]
fn npy_errors_name_the_problem() {
    let good = npy("<f4", false, "(2,)", &f32_bytes(&[1.0, 2.0]));
    let message = |b: &[u8]| read_npy(b).unwrap_err().message();
    assert_eq!(message(b"short"), "malformed input: bad npy magic");
    let mut b = good.clone();
    b[6] = 3;
    assert_eq!(message(&b), "unsupported: npy version 3.0 (supports 1.0 and 2.0)");
    assert_eq!(message(&good[..20]), "malformed input: truncated npy header");
    let mut b = good.clone();
    b[6] = 2;
    assert_eq!(message(&b[..11]), "malformed input: truncated npy header");
    assert_eq!(
        message(&good[..good.len() - 1]),
        "malformed input: npy data length 7 != shape elements 2 * itemsize 4"
    );
    assert_eq!(message(&npy("<c8", false, "(1,)", &[0; 8])), "unsupported: dtype \"<c8\"");
    assert!(message(&npy("<f4", false, "[2]", &[0; 8])).starts_with("malformed input: cannot parse npy header: \"{'descr'"));
    assert_eq!(
        message(&npy("<f4", false, "(4294967296, 4294967296, 2)", &[])),
        "malformed input: npy shape overflow"
    );
    assert_eq!(
        message(&npy("<f4", false, "(4611686018427387904,)", &[])),
        "malformed input: npy data size overflow"
    );
    let mut b = good;
    b[12] = 0xFF;
    assert_eq!(message(&b), "malformed input: npy header is not ASCII");
}

#[test]
fn npy_version_two_reads() {
    let one = npy("<f4", false, "(1,)", &f32_bytes(&[2.5]));
    let mut two = b"\x93NUMPY\x02\x00".to_vec();
    two.extend_from_slice(&118u32.to_le_bytes());
    assert_eq!(u16::from_le_bytes([one[8], one[9]]), 118);
    two.extend_from_slice(&one[10..]);
    assert_eq!(floats(&read_npy(&two).unwrap().data), [2.5]);
}

#[test]
fn archive_errors_name_the_problem() {
    let entry = npy("<f4", false, "(1,)", &f32_bytes(&[1.0]));
    let message = |b: &[u8]| read_npz(b).unwrap_err().message();
    assert_eq!(message(&[]), "malformed input: file smaller than ZIP EOCD");
    assert_eq!(message(&[0; 64]), "malformed input: no ZIP end-of-central-directory");
    assert_eq!(
        message(&zip(&[("w.npy", entry.clone())], 8, 0)),
        "unsupported: entry \"w.npy\" uses compression method 8 (np.savez_compressed output); resave with np.savez (uncompressed)"
    );
    assert_eq!(message(&zip(&[("w.npy", entry.clone())], 0, 1)), "unsupported: encrypted entry \"w.npy\"");
    assert_eq!(
        message(&zip(&[("w.npy", entry.clone())], 0, 8)),
        "unsupported: entry \"w.npy\" uses a data descriptor (not written by numpy)"
    );
    let mut b = zip(&[("w.npy", entry.clone())], 0, 0);
    b[0] = b'X';
    assert_eq!(message(&b), "malformed input: bad local header for \"w.npy\"");
    let bad = zip(&[("w.npy", b"not an array".to_vec())], 0, 0);
    assert_eq!(message(&bad), "malformed input: \"w.npy\": bad npy magic");
    let big = npy("<f4", false, "(3,)", &f32_bytes(&[1.0]));
    assert_eq!(
        message(&zip(&[("w.npy", big)], 0, 0)),
        "malformed input: \"w.npy\": npy data length 4 != shape elements 3 * itemsize 4"
    );
}

fn safetensors(header: &str, data: &[u8]) -> Vec<u8> {
    let mut out = (header.len() as u64).to_le_bytes().to_vec();
    out.extend_from_slice(header.as_bytes());
    out.extend_from_slice(data);
    out
}

#[test]
fn tensor_types_convert() {
    let header = r#" {"__metadata__": {"format": "pt"}, "h":{"dtype":"F16","shape":[1],"data_offsets":[0,2]},
        "i":{"shape":[],"dtype":"I32","data_offsets":[2,6]}, "l":{"dtype":"I64","shape":[1,1],"data_offsets":[6,14]},
        "u":{"dtype":"U8","shape":[2],"data_offsets":[14,16]},"\u0062":{"dtype":"BOOL","shape":[0],"data_offsets":[16,16]}} "#;
    let mut data = vec![0x00, 0x3C];
    data.extend_from_slice(&(-5i32).to_le_bytes());
    data.extend_from_slice(&77i64.to_le_bytes());
    data.extend_from_slice(&[1, 200]);
    let ts = read_safetensors(&safetensors(header, &data)).unwrap();
    let got: Vec<(String, Vec<usize>, Vec<f32>)> =
        ts.iter().map(|t| (t.name.clone(), t.shape.clone(), floats(&t.data))).collect();
    assert_eq!(
        got,
        vec![
            ("h".to_string(), vec![1], vec![1.0]),
            ("i".to_string(), vec![], vec![-5.0]),
            ("l".to_string(), vec![1, 1], vec![77.0]),
            ("u".to_string(), vec![2], vec![1.0, 200.0]),
            ("b".to_string(), vec![0], vec![]),
        ]
    );
}

#[test]
fn tensor_errors_name_the_problem() {
    let message = |h: &str, d: &[u8]| read_safetensors(&safetensors(h, d)).unwrap_err().message();
    assert_eq!(
        message(r#"{"a":{"dtype":"F32","shape":[1],"data_offsets":[0,8]}}"#, &[0; 4]),
        "malformed input: tensor \"a\": offsets [0, 8) outside data (len 4)"
    );
    assert_eq!(
        message(r#"{"a":{"dtype":"F64","shape":[1],"data_offsets":[0,4]}}"#, &[0; 4]),
        "unsupported: safetensors dtype \"F64\""
    );
    assert_eq!(
        message(r#"{"a":{"dtype":"F32","shape":[2],"data_offsets":[0,4]}}"#, &[0; 4]),
        "malformed input: tensor \"a\": byte range 4 != elements 2 * itemsize 4"
    );
    assert_eq!(
        message(r#"{"a":{"dtype":"F32","shape":[4294967296,4294967296],"data_offsets":[0,4]}}"#, &[0; 4]),
        "malformed input: tensor \"a\": shape overflow"
    );
    assert_eq!(message("{} x", &[]), "malformed input: safetensors header: trailing data after header object");
    assert_eq!(
        message(r#"{"a":{"dtype":"F32","shape":[1]}}"#, &[]),
        "malformed input: safetensors header: tensor entry missing dtype/shape/data_offsets"
    );
    assert_eq!(
        message(r#"{"a":{"extra":"F32"}}"#, &[]),
        "malformed input: safetensors header: unexpected tensor field"
    );
    assert_eq!(
        read_safetensors(&[9; 9]).unwrap_err(),
        IoError::Malformed("safetensors header length exceeds file".to_string())
    );
    let mut b = safetensors("{}", &[]);
    b[8] = 0xFF;
    assert_eq!(read_safetensors(&b).unwrap_err().message(), "malformed input: safetensors header is not UTF-8");
}

#[test]
fn arrays_are_equal_as_numbers() {
    let named = |name: &str, shape: &[usize], v: &[f32]| NamedArray {
        name: name.to_string(),
        shape: shape.to_vec(),
        data: bits(v),
    };
    assert!(named("w", &[2], &[0.0, 1.0]) == named("w", &[2], &[-0.0, 1.0]));
    assert!(named("w", &[2], &[0.0, 1.0]) != named("v", &[2], &[0.0, 1.0]));
    assert!(named("w", &[2], &[0.0, 1.0]) != named("w", &[2, 1], &[0.0, 1.0]));
    assert!(named("w", &[1], &[f32::NAN]) != named("w", &[1], &[f32::NAN]));
    let raw = |x: f32| RawArray { shape: vec![1], data: bits(&[x]) };
    assert!(raw(0.0) == raw(-0.0) && raw(1.0) != raw(2.0) && raw(f32::NAN) != raw(f32::NAN));
}
