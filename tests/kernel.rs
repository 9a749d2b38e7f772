use dataflow::block::{Bool, Input, Output, Parameter, PortError, Real};
use dataflow::counters::{SizeMismatch, SystemCounters};
use dataflow::size::{BlockFieldType, BlockSize, DType, SystemSize};
use dataflow::storage::SystemStorage;
use dataflow::thermal_mass;

fn capacity(r_param: usize, b_param: usize, r_state: usize, b_state: usize, r_out: usize, b_out: usize) -> SystemSize {
    SystemSize { r_param, b_param, r_state, b_state, r_out, b_out }
}

#[test]
fn tests() {
    let size = SystemSize::new().add(thermal_mass::size());
    let mut storage = SystemStorage::new(&size, 0.0f64);
    let mut counters = SystemCounters::new();
    let mass = thermal_mass::new(&mut storage, &mut counters, 100.0, 10.0, 1.0, 1.0, 20.0);
    assert_eq!(mass.cp.get(&storage), 100.0);
    assert_eq!(mass.t.get(&storage), 20.0);
    assert_eq!(counters.consumed(), storage.sizes());
}

#[test]
fn block_size_new_is_zero() {
    let z = BlockSize::new();
    assert_eq!(z, BlockSize { r_param: 0, b_param: 0, r_state: 0, b_state: 0, r_in: 0, b_in: 0, r_out: 0, b_out: 0 });
    assert_eq!(SystemSize::new().add(z), SystemSize::new());
}

#[test]
fn system_size_adds_pointwise() {
    let a = capacity(1, 2, 3, 4, 5, 6);
    let bs = BlockSize { r_param: 10, b_param: 20, r_state: 30, b_state: 40, r_in: 7, b_in: 8, r_out: 50, b_out: 60 };
    assert_eq!(a.add(bs), capacity(11, 22, 33, 44, 55, 66));
}

#[test]
fn system_size_of_blocks_sums_signatures() {
    let blocks = vec![
        thermal_mass::size(),
        dataflow::hysteresis::size(),
        dataflow::converter_b2f::size(),
    ];
    assert_eq!(SystemSize::of_blocks(&blocks), Some(capacity(8, 1, 1, 1, 2, 1)));
    assert_eq!(SystemSize::of_blocks(&vec![]), Some(SystemSize::new()));
}

#[test]
fn system_size_of_blocks_overflow_is_none() {
    let big = BlockSize { r_param: usize::MAX, ..BlockSize::new() };
    let one = BlockSize { r_param: 1, ..BlockSize::new() };
    assert_eq!(SystemSize::of_blocks(&vec![big, one]), None);
}

#[test]
fn counters_issue_dense_disjoint_indices() {
    let mut c = SystemCounters::new();
    assert_eq!(c.next_r_param(), 0);
    assert_eq!(c.next_b_out(), 0);
    assert_eq!(c.next_r_param(), 1);
    assert_eq!(c.next_r_state(), 0);
    assert_eq!(c.next_r_param(), 2);
    assert_eq!(c.next_b_param(), 0);
    assert_eq!(c.next_b_state(), 0);
    assert_eq!(c.next_r_out(), 0);
    assert_eq!(c.next_b_out(), 1);
    assert_eq!(c.consumed(), capacity(3, 1, 1, 1, 1, 2));
}

#[test]
fn storage_starts_zeroed_with_fixed_sizes() {
    let size = capacity(2, 1, 3, 1, 2, 2);
    let s = SystemStorage::new(&size, 0.0f64);
    assert_eq!(s.sizes(), size);
    for i in 0..3 {
        assert_eq!(s.r_state_get(i), 0.0);
        assert_eq!(s.r_state_der_get(i), 0.0);
    }
    assert!(!s.b_out_get(1));
    assert!(!s.b_param_get(0));
}

#[test]
fn storage_set_touches_one_cell() {
    let mut s = SystemStorage::new(&capacity(2, 2, 1, 1, 2, 2), 0.0f64);
    s.r_param_set(1, 3.5);
    s.b_param_set(0, true);
    s.r_out_set(0, -2.0);
    s.b_out_set(1, true);
    s.b_state_set(0, true);
    s.r_state_set(0, 7.0);
    s.r_state_der_set(0, 0.25);
    assert_eq!(s.r_param_get(0), 0.0);
    assert_eq!(s.r_param_get(1), 3.5);
    assert!(s.b_param_get(0) && !s.b_param_get(1));
    assert_eq!(s.r_out_get(0), -2.0);
    assert_eq!(s.r_out_get(1), 0.0);
    assert!(!s.b_out_get(0) && s.b_out_get(1));
    assert!(s.b_state_get(0));
    assert_eq!(s.r_state_get(0), 7.0);
    assert_eq!(s.r_state_der_get(0), 0.25);
}

#[test]
fn integrator_is_forward_euler_per_cell() {
    let mut s = SystemStorage::new(&capacity(0, 0, 3, 0, 1, 0), 0.0f64);
    s.r_state_set(0, 1.5);
    s.r_state_der_set(0, 2.0);
    s.r_state_set(1, 10.0);
    s.r_state_der_set(1, -0.1);
    s.r_state_set(2, 0.3);
    s.r_state_der_set(2, 0.7);
    s.r_out_set(0, 9.0);
    let dt = 0.5f64;
    s.advance_continuous_state(&|v: f64, d: f64| v + d * dt);
    assert_eq!(s.r_state_get(0), 1.5 + 2.0 * dt);
    assert_eq!(s.r_state_get(1), 10.0 + -0.1 * dt);
    assert_eq!(s.r_state_get(2), 0.3 + 0.7 * dt);
    assert_eq!(s.r_state_der_get(1), -0.1);
    assert_eq!(s.r_out_get(0), 9.0);
}

#[test]
fn integrator_cell_ignores_other_cells() {
    let mut a = SystemStorage::new(&capacity(0, 0, 2, 0, 0, 0), 0.0f64);
    let mut b = SystemStorage::new(&capacity(0, 0, 2, 0, 0, 0), 0.0f64);
    for s in [&mut a, &mut b] {
        s.r_state_set(0, 4.0);
        s.r_state_der_set(0, 1.0);
    }
    b.r_state_set(1, 1e6);
    b.r_state_der_set(1, -3e5);
    a.advance_continuous_state(&|v: f64, d: f64| v + d * 5.0);
    b.advance_continuous_state(&|v: f64, d: f64| v + d * 5.0);
    assert_eq!(a.r_state_get(0), 9.0);
    assert_eq!(b.r_state_get(0), 9.0);
}

#[test]
fn unconnected_input_get_fails() {
    let s = SystemStorage::new(&capacity(0, 0, 0, 0, 1, 1), 0.0f64);
    let x: Input<Real> = Input::new();
    let y: Input<Bool> = Input::new();
    assert_eq!(x.get(&s), Err(PortError::Unbound));
    assert_eq!(y.get(&s), Err(PortError::Unbound));
    assert_eq!(x.output_id(), None);
}

#[test]
fn second_connect_is_rejected() {
    let mut s = SystemStorage::new(&capacity(0, 0, 0, 0, 2, 0), 0.0f64);
    let a = Output::<Real>::new(0);
    let b = Output::<Real>::new(1);
    a.set(&mut s, 1.25);
    b.set(&mut s, 8.0);
    let mut x: Input<Real> = Input::new();
    assert_eq!(x.connect(&a), Ok(()));
    assert_eq!(x.connect(&b), Err(PortError::AlreadyBound));
    assert_eq!(x.output_id(), Some(0));
    assert_eq!(x.get(&s), Ok(1.25));
}

#[test]
fn fan_out_to_several_inputs() {
    let mut s = SystemStorage::new(&capacity(0, 0, 0, 0, 0, 1), 0.0f64);
    let o = Output::<Bool>::new(0);
    o.set(&mut s, true);
    let mut x: Input<Bool> = Input::new();
    let mut y: Input<Bool> = Input::new();
    assert_eq!(x.connect(&o), Ok(()));
    assert_eq!(y.connect(&o), Ok(()));
    assert_eq!(x.get(&s), Ok(true));
    assert_eq!(y.get(&s), Ok(true));
}

#[test]
fn handles_reread_same_value() {
    let mut s = SystemStorage::new(&capacity(1, 1, 1, 1, 1, 1), 0.0f64);
    let p = Parameter::<Real>::new(0).init(&mut s, 4.5);
    let q = Parameter::<Bool>::new(0).init(&mut s, true);
    let o = Output::<Real>::new(0);
    o.set(&mut s, -1.0);
    let d = dataflow::block::DiscreteState::<Bool>::new(0).init(&mut s, true);
    let c = dataflow::block::ContinuousState::<Real>::new(0).init(&mut s, 3.0);
    c.der_set(&mut s, 0.5);
    assert_eq!(p.get(&s), p.get(&s));
    assert_eq!(p.get(&s), 4.5);
    assert_eq!(q.get(&s), q.get(&s));
    assert!(q.get(&s));
    assert_eq!(o.get(&s), o.get(&s));
    assert_eq!(d.get(&s), d.get(&s));
    assert_eq!(c.get(&s), c.get(&s));
    assert_eq!(c.get(&s), 3.0);
    assert_eq!(c.der_get(&s), 0.5);
    assert!(!s.b_out_get(0));
    assert_eq!(s.r_out_get(0), -1.0);
}

#[test]
fn allocation_must_exhaust_declared_capacity() {
    let declared = SystemSize::new().add(thermal_mass::size());
    let mut storage = SystemStorage::new(&declared, 0.0f64);
    let mut counters = SystemCounters::new();
    assert_eq!(
        counters.check_exhausted(&declared),
        Err(SizeMismatch { declared, consumed: SystemSize::new() })
    );
    let _mass = thermal_mass::new(&mut storage, &mut counters, 1.0, 10.0, 1.0, 20.0, 20.0);
    assert_eq!(counters.check_exhausted(&declared), Ok(()));
}

#[test]
fn signature_from_field_descriptions() {
    let fields = vec![
        (BlockFieldType::Parameter, DType::Real),
        (BlockFieldType::Parameter, DType::Real),
        (BlockFieldType::Parameter, DType::Real),
        (BlockFieldType::Parameter, DType::Real),
        (BlockFieldType::Input, DType::Real),
        (BlockFieldType::ContinuousState, DType::Real),
        (BlockFieldType::Output, DType::Real),
    ];
    assert_eq!(BlockSize::of_fields(&fields), thermal_mass::size());
    let hyst = vec![
        (BlockFieldType::Parameter, DType::Real),
        (BlockFieldType::Parameter, DType::Real),
        (BlockFieldType::Parameter, DType::Bool),
        (BlockFieldType::Input, DType::Real),
        (BlockFieldType::Output, DType::Bool),
        (BlockFieldType::DiscreteState, DType::Bool),
    ];
    assert_eq!(BlockSize::of_fields(&hyst), dataflow::hysteresis::size());
    assert_eq!(BlockSize::of_fields(&vec![]), BlockSize::new());
}
