use babble::au_filter::{io_filter, max_inputs, shape_filter, CiEncodingConfig, Shape, TypeAnalysis};

/// Dummy type for testing, with a specified width
#[derive(Debug, Clone)]
struct Dummy {
    w: u32,
}

impl TypeAnalysis for Dummy {
    fn length(&self) -> u32 {
        1
    }

    fn width(&self) -> Option<u32> {
        Some(self.w)
    }
}

#[test]
fn test_simple_within_limit() {
    let cfg = CiEncodingConfig::default();
    let inputs = vec![Dummy { w: 8 }, Dummy { w: 16 }];
    assert!(io_filter(&cfg, &inputs));
}

#[test]
fn test_exceed_without_packing() {
    let mut cfg = CiEncodingConfig::default();
    cfg.packed_access.enabled = true;
    let dummy = Dummy { w: 20 };
    let inputs = vec![dummy.clone(); 20];
    assert!(!io_filter(&cfg, &inputs));
}

#[test]
fn test_packing_reduces_registers() {
    let cfg = CiEncodingConfig::default();
    // Five 8-bit values can be packed into two registers
    let inputs = vec![Dummy { w: 8 }; 5];
    assert!(io_filter(&cfg, &inputs));
}

#[test]
fn test_neighboring_effect() {
    let mut cfg = CiEncodingConfig::default();
    cfg.register_neighboring.enabled = true;
    let inputs = vec![Dummy { w: 32 }; 2];
    assert!(io_filter(&cfg, &inputs));
}

#[test]
fn test_grouping_effect() {
    let mut cfg = CiEncodingConfig::default();
    cfg.register_grouping.enabled = true;
    // Six inputs requiring grouping: dis_bits=3, hand_bits=2 =>
    // bits_needed=2+6*3=20 <=32
    let inputs = vec![Dummy { w: 8 }; 6];
    assert!(io_filter(&cfg, &inputs));
}

#[test]
fn test_mixed_pack_sizes() {
    let cfg = CiEncodingConfig::default();
    let inputs = vec![
        Dummy { w: 8 },
        Dummy { w: 16 },
        Dummy { w: 8 },
        Dummy { w: 16 },
        Dummy { w: 8 },
        Dummy { w: 16 },
    ];
    // should fit within packed access scheme
    assert!(io_filter(&cfg, &inputs));
}

#[test]
fn limit_of_the_default_config() {
    // 32 / 5 = 6 registers, each of 32 / 8 = 4 values.
    assert_eq!(max_inputs(&CiEncodingConfig::default()), 24);
}

fn scalar(width: u32) -> Shape {
    Shape { width: Some(width), length: 1, extra_vector_bits: 0 }
}

#[test]
fn packing_is_tight() {
    let cfg = CiEncodingConfig::default();
    // Twenty-four values of 8 bits take up six registers of five bits each.
    assert!(shape_filter(&cfg, &vec![scalar(8); 24]));
    // Thirteen values of 16 bits take up seven.
    assert!(shape_filter(&cfg, &vec![scalar(16); 12]));
    assert!(!shape_filter(&cfg, &vec![scalar(16); 13]));
}

#[test]
fn every_wide_input_has_a_register_of_its_own() {
    let cfg = CiEncodingConfig::default();
    assert!(shape_filter(&cfg, &vec![scalar(32); 6]));
    assert!(!shape_filter(&cfg, &vec![scalar(32); 7]));
    let mut unpacked = CiEncodingConfig::default();
    unpacked.packed_access.enabled = false;
    assert!(!shape_filter(&unpacked, &vec![scalar(8); 7]));
}

/// A type whose width may be unknown.
struct Register(Option<u32>);

impl TypeAnalysis for Register {
    fn width(&self) -> Option<u32> {
        self.0
    }
}

#[test]
fn the_order_of_inputs_makes_no_difference() {
    let cfg = CiEncodingConfig::default();
    let ask = |widths: &[Option<u32>]| {
        let inputs: Vec<Register> = widths.iter().copied().map(Register).collect();
        io_filter(&cfg, &inputs)
    };
    let some = [None, Some(8), Some(16), Some(8), Some(20), Some(32)];
    let others = [Some(20), Some(32), Some(8), Some(32), Some(8), Some(16)];
    assert_eq!(ask(&some), ask(&others));
    let many = [None, Some(20), None, Some(20), None, Some(20), None, Some(20)];
    let more = [Some(20), Some(20), Some(20), Some(20), Some(32), None, Some(32), None];
    assert_eq!(ask(&many), ask(&more));
    assert!(ask(&some) && !ask(&many));
}
