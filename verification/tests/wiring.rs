use unltd_inference::layers::LayerInfo;
use unltd_inference::tensor::DType;
use unltd_inference::units::human;
use unltd_inference::wiring::{layer_ops, Op, Reg, Weight};

fn with_floats(bytes: u64) -> String {
    let units = ["B", "KB", "MB", "GB", "TB"];
    let mut b = bytes as f64;
    let mut i = 0;
    while b >= 1000.0 && i < 4 {
        b /= 1000.0;
        i += 1;
    }
    format!("{b:.2} {}", units[i])
}

#[test]
fn sizes_are_shown_as_floats_show_them() {
    assert_eq!(human(0), "0.00 B");
    assert_eq!(human(999), "999.00 B");
    assert_eq!(human(1000), "1.00 KB");
    assert_eq!(human(8_240_000_000), "8.24 GB");
    assert_eq!(human(1_450_000_000_000), "1.45 TB");
    assert_eq!(human(u64::MAX), "18446744.07 TB");
    let mut x: u64 = 1;
    for i in 0..200_000u64 {
        assert_eq!(human(i), with_floats(i));
        x = x.wrapping_mul(6364136223846793005).wrapping_add(1442695040888963407);
        let n = x >> (i % 64);
        assert_eq!(human(n), with_floats(n), "{n}");
    }
    for k in 0..64 {
        for d in [0u64, 1, 2, 3] {
            let n = (1u64 << k).wrapping_sub(2).wrapping_add(d);
            assert_eq!(human(n), with_floats(n), "{n}");
        }
    }
    for n in (1000..1_000_000u64).step_by(5) {
        assert_eq!(human(n), with_floats(n), "{n}");
    }
}

#[test]
fn layers_are_wired_from_input_to_output() {
    for full in [false, true] {
        let ops = layer_ops(full);
        let mut shown = 0;
        let mut stored = 0;
        for op in &ops {
            match op {
                Op::Show { .. } => shown += 1,
                Op::Store { .. } => stored += 1,
                _ => {}
            }
        }
        assert_eq!((shown, stored), if full { (0, 1) } else { (26, 0) });
        assert!(ops.iter().any(|op| matches!(op, Op::Add { out: Reg::Out, .. })));
    }
}

#[test]
fn weights_have_their_names_and_types() {
    assert_eq!(Weight::SsmConv.name(), "ssm_conv1d.weight");
    let info = LayerInfo { full: true, slot: 0, values: DType::Q6K, down: DType::Q4K };
    assert_eq!(info.dtype(Weight::AttnV), DType::Q6K);
    assert_eq!(info.dtype(Weight::FfnDown), DType::Q4K);
    assert_eq!(info.dtype(Weight::SsmA), DType::F32);
    assert_eq!(info.dtype(Weight::AttnQ), DType::Q4K);
}
