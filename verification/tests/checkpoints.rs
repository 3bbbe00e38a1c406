use tzolkin::bundle::{Bundle, BundleFault, Tensor};
use tzolkin::checkpoint::{tensor_manifest, Geometry, Init, LoadError, Net};
use tzolkin::forward::{
    any_pointer, query_cell, scatter, stems, EdgeSpec, Head, Offsets, Plan, Planner, StemLayer,
};
use tzolkin::ids::{PlayerId, WorkerId};
use tzolkin::net::{rotate_value, select, Arch, BatchConfig};
use tzolkin::phase::Phase;

fn geometry() -> Geometry {
    Geometry {
        d_in: 40,
        d_choice: 3,
        n_who: 5,
        n_place: 6,
        board_w: 7,
        player_w: 2,
        bslot_w: 1,
        mslot_w: 2,
        global_w: 3,
    }
}

fn tiny() -> Arch {
    Arch {
        width: 4,
        blocks: 2,
        board: 3,
        player: 2,
        bslot: 1,
        mslot: 2,
        globals: 2,
        value_hidden: 3,
        key: 2,
    }
}

fn volume(shape: &[usize]) -> usize {
    shape.iter().product()
}

fn net() -> Net {
    let slots = tensor_manifest(tiny(), geometry());
    let mut next = 0u32;
    let weights = slots
        .iter()
        .map(|s| {
            (0..volume(&s.shape))
                .map(|_| {
                    next += 0x0101_0307;
                    next
                })
                .collect()
        })
        .collect();
    Net { arch: tiny(), label: "unit".to_string(), weights }
}

fn fault(bytes: &[u8]) -> BundleFault {
    match Bundle::parse(bytes) {
        Ok(_) => panic!("should not parse"),
        Err(e) => e.fault,
    }
}

fn framed(header: &str, data: &[u8]) -> Vec<u8> {
    let mut out = (header.len() as u64).to_le_bytes().to_vec();
    out.extend_from_slice(header.as_bytes());
    out.extend_from_slice(data);
    out
}

#[test]
fn bundles_read_back_as_they_were_written() {
    let b = Bundle {
        tensors: vec![
            ("a \"quoted\" name".to_string(), Tensor { shape: vec![2, 3], data: vec![1, 2, 3, 4, 5, 6] }),
            ("b".to_string(), Tensor { shape: vec![], data: vec![0xFFFF_FFFF] }),
            ("c".to_string(), Tensor { shape: vec![0, 9], data: vec![] }),
        ],
        meta: vec![("k".to_string(), "v".to_string()), ("label".to_string(), "ü\n".to_string())],
    };
    let bytes = b.to_bytes();
    let n = u64::from_le_bytes(bytes[0..8].try_into().unwrap()) as usize;
    assert_eq!((8 + n) % 8, 0);
    assert_eq!(bytes.len(), 8 + n + 28);
    let header: serde_json::Value = serde_json::from_slice(&bytes[8..8 + n]).unwrap();
    assert_eq!(header["b"]["dtype"], "F32");
    assert_eq!(header["b"]["data_offsets"][0], 24);
    assert_eq!(header["b"]["data_offsets"][1], 28);
    assert_eq!(header["__metadata__"]["k"], "v");
    let back = Bundle::parse(&bytes).unwrap_or_else(|e| panic!("{:?}", e.fault));
    assert_eq!(back.tensors.len(), 3);
    for (x, y) in back.tensors.iter().zip(&b.tensors) {
        assert_eq!(x.0, y.0);
        assert_eq!(x.1.shape, y.1.shape);
        assert_eq!(x.1.data, y.1.data);
    }
    assert_eq!(back.meta, b.meta);
    assert_eq!(back.to_bytes(), bytes);
}

#[test]
fn bundles_are_written_byte_for_byte() {
    let b = Bundle {
        tensors: vec![
            ("Z".to_string(), Tensor { shape: vec![2], data: vec![1, 0x0203_0405] }),
            ("a".to_string(), Tensor { shape: vec![], data: vec![7] }),
        ],
        meta: vec![("k".to_string(), "v\"".to_string())],
    };
    let header = [
        r#"{"Z":{"data_offsets":[0,8],"dtype":"F32","shape":[2]},"#,
        r#""__metadata__":{"k":"v\""},"#,
        r#""a":{"data_offsets":[8,12],"dtype":"F32","shape":[]}}"#,
    ].concat();
    let mut want = header.clone().into_bytes();
    while want.len() % 8 != 0 {
        want.push(b' ');
    }
    let mut bytes = (want.len() as u64).to_le_bytes().to_vec();
    bytes.extend(&want);
    bytes.extend([1, 0, 0, 0, 5, 4, 3, 2, 7, 0, 0, 0]);
    assert_eq!(b.to_bytes(), bytes);
    let back = Bundle::parse(&bytes).unwrap_or_else(|e| panic!("{:?}", e.fault));
    assert_eq!(back.to_bytes(), bytes);
}

#[test]
fn every_fault_of_a_bundle_is_named() {
    assert_eq!(fault(&[1, 2, 3]), BundleFault::Short);
    assert_eq!(fault(&[255; 8]), BundleFault::Overflow);
    assert_eq!(fault(&[9, 0, 0, 0, 0, 0, 0, 0]), BundleFault::PastEnd);
    assert_eq!(fault(&framed("{", &[])), BundleFault::Header);
    assert_eq!(fault(&framed("[1]", &[])), BundleFault::NotObject);
    assert_eq!(fault(&framed(r#"{"t":{"dtype":"F16"}}"#, &[])), BundleFault::Dtype);
    assert_eq!(fault(&framed(r#"{"t":{"dtype":"F32"}}"#, &[])), BundleFault::NoShape);
    assert_eq!(fault(&framed(r#"{"t":{"dtype":"F32","shape":[1]}}"#, &[])), BundleFault::NoOffsets);
    let t = r#"{"t":{"dtype":"F32","shape":[1],"data_offsets":[0,4]}}"#;
    assert_eq!(fault(&framed(t, &[0; 3])), BundleFault::Range);
    let t = r#"{"t":{"dtype":"F32","shape":[2],"data_offsets":[0,4]}}"#;
    assert_eq!(fault(&framed(t, &[0; 4])), BundleFault::Size);
}

#[test]
fn bundles_hold_what_their_header_says() {
    let t = r#"{"t":{"dtype":"F32","shape":[2],"data_offsets":[0,8]},"__metadata__":{"a":"x","n":3}}"#;
    let b = Bundle::parse(&framed(t, &[1, 0, 0, 0, 0, 1, 0, 0])).unwrap_or_else(|_| panic!());
    assert_eq!(b.tensors[0].0, "t");
    assert_eq!(b.tensors[0].1.data, vec![1, 256]);
    assert_eq!(b.meta, vec![("a".to_string(), "x".to_string())]);
    assert!(Bundle::parse(&framed("{}   ", &[])).is_ok());
}

#[test]
fn the_manifest_lists_every_tensor() {
    let slots = tensor_manifest(tiny(), geometry());
    assert_eq!(slots.len(), 46 + 6 * 2);
    assert_eq!(slots[0].name, "stem.board.weight");
    assert_eq!(slots[0].shape, vec![3, 7]);
    assert_eq!(slots[0].init, Init::Spread { out: 3, inp: 7, head: false });
    let fuse = slots.iter().find(|s| s.name == "fuse.weight").unwrap();
    assert_eq!(fuse.shape, vec![4, 3 + 4 * 2 + 6 + 6 * 2 + 2]);
    let second = slots.iter().find(|s| s.name == "trunk.1.fc2.weight").unwrap();
    assert_eq!(second.shape, vec![4, 4]);
    assert_eq!(second.init, Init::Zero);
    let step = slots.iter().find(|s| s.name == "ptr.step_emb").unwrap();
    assert_eq!(step.shape, vec![8, 2]);
    let mut names: Vec<&str> = slots.iter().map(|s| s.name.as_str()).collect();
    names.sort();
    names.dedup();
    assert_eq!(names.len(), slots.len());
    let total: usize = slots.iter().map(|s| volume(&s.shape)).sum();
    assert_eq!(net().n_params(), total);
}

#[test]
fn networks_load_as_they_were_saved() {
    let n = net();
    let bytes = n.bundle(geometry(), 7).to_bytes();
    let b = Bundle::parse(&bytes).unwrap_or_else(|e| panic!("{:?}", e.fault));
    let notes: Vec<&str> = b.meta.iter().map(|m| m.0.as_str()).collect();
    assert!(notes.contains(&"rules_version"));
    let back = Net::from_bundle(b, "other", geometry()).unwrap_or_else(|_| panic!());
    assert_eq!(back.arch, n.arch);
    assert_eq!(back.weights, n.weights);
    assert_eq!(back.label, "other");
}

fn refused(b: Bundle) -> LoadError {
    match Net::from_bundle(b, "x", geometry()) {
        Ok(_) => panic!("should not load"),
        Err(e) => e,
    }
}

fn with_note(key: &str, value: &str) -> Bundle {
    let mut b = net().bundle(geometry(), 7);
    for m in b.meta.iter_mut() {
        if m.0 == key {
            m.1 = value.to_string();
        }
    }
    b
}

#[test]
fn checkpoints_that_do_not_fit_are_refused() {
    assert!(matches!(refused(with_note("format", "other")), LoadError::Format(f) if f == "other"));
    assert!(matches!(refused(with_note("format_version", "2")), LoadError::Newer(2)));
    assert!(matches!(refused(with_note("d_in", "41")), LoadError::Geometry(k, 41) if k == "d_in"));
    assert!(matches!(refused(with_note("n_who", "x")), LoadError::Geometry(k, 0) if k == "n_who"));
    assert!(matches!(refused(with_note("width", "5")), LoadError::Shape(n) if n == "fuse.weight"));
    assert!(matches!(
        refused(with_note("blocks", "3")),
        LoadError::Missing(n) if n == "trunk.2.norm1.weight"
    ));
    assert!(matches!(
        refused(with_note("blocks", "1")),
        LoadError::Extra(n) if n == "trunk.1.fc1.weight"
    ));
    let mut b = net().bundle(geometry(), 7);
    b.tensors.remove(0);
    assert!(matches!(refused(b), LoadError::Missing(_)));
}

#[test]
fn architectures_have_their_widths() {
    let main = Arch::main();
    assert_eq!(main.fuse(), 192 + 4 * 96 + 6 * 48 + 6 * 32 + 128);
    assert_eq!(main.tag(), "w512b6");
    assert_eq!(Arch::small().tag(), "w384b4");
    assert_eq!(BatchConfig::for_games(0).max_batch, 1);
    assert_eq!(BatchConfig::for_games(4000).max_batch, 256);
}

#[test]
fn stems_fill_the_fused_row() {
    let o = Offsets {
        board: 0,
        players: 7,
        bslots: 15,
        mslots: 21,
        global: 33,
        reserved: 35,
        global_w: 2,
    };
    let v = stems(&tiny(), &geometry(), &o);
    assert_eq!(v.len(), 19);
    let mut col = 0;
    for s in &v[..18] {
        assert_eq!(s.col, col);
        assert!(!s.adds);
        col += s.out;
    }
    assert_eq!(col, tiny().fuse());
    assert_eq!(v[2].layer, StemLayer::Player);
    assert_eq!(v[2].from, 9);
    assert!(v[18].adds);
    assert_eq!((v[18].from, v[18].inp, v[18].at, v[18].col), (35, 1, 2, v[17].col));
}

#[test]
fn batches_are_planned_node_by_node() {
    let mut p = Planner::new();
    assert!(matches!(p.node(0, 0, EdgeSpec::Uniform, true, 0, Phase::Mode), Plan::Empty));
    assert!(matches!(p.node(1, 1, EdgeSpec::Uniform, true, 0, Phase::Mode), Plan::Sure));
    assert!(matches!(p.node(2, 3, EdgeSpec::Uniform, true, 0, Phase::Mode), Plan::Uniform { n: 3 }));
    let fixed = EdgeSpec::Fixed { head: Head::Mode, idx: vec![0, 2] };
    assert!(matches!(
        p.node(3, 2, fixed, true, 0, Phase::Mode),
        Plan::Masked { head: Head::Mode, idx } if idx == vec![0, 2]
    ));
    let take = Phase::Take { worker: WorkerId(1) };
    let wide = EdgeSpec::Pointer { scores: (0..100).collect() };
    match p.node(4, 100, wide, true, 3, take) {
        Plan::Ptr { row, n, keep, cell, .. } => {
            assert_eq!((row, n, keep, cell), (4, 100, (0, 64), 3));
        }
        _ => panic!("a pointer node waits for the second stage"),
    }
    assert_eq!(p.keep, (36..100).collect::<Vec<usize>>());
    let short = EdgeSpec::Pointer { scores: vec![5, 4] };
    assert!(matches!(p.node(5, 2, short, true, 3, take), Plan::Ptr { keep: (64, 66), .. }));
    let late = EdgeSpec::Pointer { scores: vec![5, 4] };
    assert!(matches!(p.node(6, 2, late, false, 3, take), Plan::Uniform { n: 2 }));
    assert!(any_pointer(&vec![Phase::Beg, take]));
    assert!(!any_pointer(&vec![Phase::Beg, Phase::Mode]));
    assert_eq!(query_cell(take, Some(2), 9), 2);
    assert_eq!(query_cell(take, None, 9), 8);
    assert_eq!(query_cell(Phase::Mode, Some(2), 9), 8);
}

#[test]
fn scores_are_scattered_to_the_kept_edges() {
    assert_eq!(scatter(4, &vec![1, 3]), vec![None, Some(0), None, Some(1)]);
    assert_eq!(scatter(2, &vec![0, 1]), vec![Some(0), Some(1)]);
    assert_eq!(select(&vec![3, 1, 2]), vec![0, 1, 2]);
}

#[test]
fn values_turn_with_the_seat() {
    assert_eq!(rotate_value([1, 2, 3, 4], PlayerId(0)), [1, 2, 3, 4]);
    assert_eq!(rotate_value([1, 2, 3, 4], PlayerId(1)), [4, 1, 2, 3]);
}
