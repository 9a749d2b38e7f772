use dataflow::block::{Output, PortError, Real};
use dataflow::converter_b2f;
use dataflow::counters::SystemCounters;
use dataflow::hysteresis;
use dataflow::schedule::{
    schedule, topological_order, without_noops, Connection, Operation, ScheduleError, StateKind, UpdateKind,
};
use dataflow::size::{BlockSize, SystemSize};
use dataflow::storage::SystemStorage;
use dataflow::temperature_controller::{ControllerParams, SystemImpl};
use dataflow::thermal_mass::{self, ThermalInputs};

fn less(a: f64, b: f64) -> bool {
    a < b
}

fn heat_balance(x: ThermalInputs<f64>) -> f64 {
    (x.qdot + x.h * x.area * (x.t_amb - x.t)) / x.cp
}

fn op(block: usize, kind: UpdateKind) -> Operation {
    Operation { block, kind }
}

fn source_size() -> BlockSize {
    BlockSize { r_out: 1, ..BlockSize::new() }
}

#[test]
fn hysteresis_transition_scenario() {
    let size = SystemSize::new().add(hysteresis::size()).add(source_size());
    let mut s = SystemStorage::new(&size, 0.0f64);
    let mut c = SystemCounters::new();
    let mut h = hysteresis::new(&mut s, &mut c, 0.0, 1.0);
    let src = Output::<Real>::new(c.next_r_out());
    assert_eq!(h.in1.connect(&src), Ok(()));
    assert!(!h.out_inverted.get(&s));
    assert!(!h.state_high.get(&s));
    let inputs = [-1.0, 0.5, 2.0, 0.5, -1.0];
    let expected = [false, false, true, true, false];
    for (x, want) in inputs.iter().zip(expected.iter()) {
        src.set(&mut s, *x);
        assert_eq!(h.update_state(&mut s, &less), Ok(()));
        h.update_output(&mut s);
        assert_eq!(h.state_high.get(&s), *want);
        assert_eq!(h.out1.get(&s), *want);
    }
}

#[test]
fn hysteresis_inverted_output_and_updates() {
    let size = SystemSize::new().add(hysteresis::size()).add(source_size());
    let mut s = SystemStorage::new(&size, 0.0f64);
    let mut c = SystemCounters::new();
    let mut h = hysteresis::new(&mut s, &mut c, 30.0, 32.0);
    h.out_inverted.set(&mut s, true);
    assert!(h.outputs(&s).out1);
    let src = Output::<Real>::new(c.next_r_out());
    assert_eq!(h.state_update(&s, &less).map(|u| u.state1).err(), Some(PortError::Unbound));
    assert_eq!(h.update_state(&mut s, &less), Err(PortError::Unbound));
    assert_eq!(h.in1.connect(&src), Ok(()));
    src.set(&mut s, 33.0);
    assert_eq!(h.state_update(&s, &less).map(|u| u.state1), Ok(Some(true)));
    src.set(&mut s, 31.0);
    assert_eq!(h.state_update(&s, &less).map(|u| u.state1), Ok(None));
    h.state_high.set(&mut s, true);
    assert!(!h.outputs(&s).out1);
    src.set(&mut s, 29.0);
    assert_eq!(h.state_update(&s, &less).map(|u| u.state1), Ok(Some(false)));
}

#[test]
fn converter_selects_parameter_by_input() {
    let size = SystemSize::new().add(converter_b2f::size()).add(hysteresis::size());
    let mut s = SystemStorage::new(&size, 0.0f64);
    let mut c = SystemCounters::new();
    let mut b = converter_b2f::new(&mut s, &mut c, 1.0, 0.0);
    assert_eq!(b.true_value.get(&s), 1.0);
    assert_eq!(b.false_value.get(&s), 0.0);
    b.true_value.set(&mut s, 500.0);
    assert_eq!(b.update_output(&mut s), Err(PortError::Unbound));
    let h = hysteresis::new(&mut s, &mut c, 0.0, 1.0);
    assert_eq!(b.in1.connect(&h.out1), Ok(()));
    h.out1.set(&mut s, true);
    assert_eq!(b.outputs(&s).map(|u| u.out1), Ok(500.0));
    assert_eq!(b.update_output(&mut s), Ok(()));
    assert_eq!(b.out1.get(&s), 500.0);
    h.out1.set(&mut s, false);
    assert_eq!(b.update_output(&mut s), Ok(()));
    assert_eq!(b.out1.get(&s), 0.0);
    assert_eq!(c.consumed(), s.sizes());
}

#[test]
fn thermal_mass_writes_derivative_not_value() {
    let size = SystemSize::new().add(thermal_mass::size()).add(source_size());
    let mut s = SystemStorage::new(&size, 0.0f64);
    let mut c = SystemCounters::new();
    let mut m = thermal_mass::new(&mut s, &mut c, 4000.0, 10.0, 1.0, 20.0, 20.0);
    let heater = Output::<Real>::new(c.next_r_out());
    assert_eq!(m.update_state(&mut s, &heat_balance), Err(PortError::Unbound));
    assert_eq!(m.qdot.connect(&heater), Ok(()));
    heater.set(&mut s, 500.0);
    assert_eq!(m.state_update(&s, &heat_balance).map(|u| u.t_dot), Ok(0.125));
    assert_eq!(m.update_state(&mut s, &heat_balance), Ok(()));
    assert_eq!(m.t.der_get(&s), 0.125);
    assert_eq!(m.t.get(&s), 20.0);
    m.update_output(&mut s);
    assert_eq!(m.t_out.get(&s), 20.0);
    assert_eq!(m.outputs(&s).t_out, 20.0);
}

#[test]
fn topological_order_prefers_smallest_ready_node() {
    assert_eq!(topological_order(3, &vec![]), Ok(vec![0, 1, 2]));
    assert_eq!(topological_order(3, &vec![(2, 0), (1, 0)]), Ok(vec![1, 2, 0]));
    assert_eq!(topological_order(0, &vec![]), Ok(vec![]));
}

#[test]
fn topological_order_errors() {
    assert_eq!(topological_order(2, &vec![(0, 1), (1, 0)]), Err(ScheduleError::UnresolvableCycle));
    assert_eq!(topological_order(2, &vec![(1, 1)]), Err(ScheduleError::UnresolvableCycle));
    assert_eq!(topological_order(2, &vec![(0, 2)]), Err(ScheduleError::UnknownNode));
}

fn reference_wiring() -> (Vec<StateKind>, Vec<Connection>) {
    (
        vec![StateKind::Continuous, StateKind::Discrete, StateKind::Stateless],
        vec![
            Connection { producer: 0, consumer: 1, to_state: true, to_output: false },
            Connection { producer: 1, consumer: 2, to_state: false, to_output: true },
            Connection { producer: 2, consumer: 0, to_state: true, to_output: false },
        ],
    )
}

#[test]
fn reference_topology_schedule() {
    let (blocks, wires) = reference_wiring();
    let ops = schedule(&blocks, &wires).unwrap();
    assert_eq!(
        ops,
        vec![
            op(0, UpdateKind::Output),
            op(1, UpdateKind::State),
            op(1, UpdateKind::Output),
            op(2, UpdateKind::State),
            op(2, UpdateKind::Output),
            op(0, UpdateKind::State),
        ]
    );
    assert_eq!(
        without_noops(&blocks, &ops),
        vec![
            op(0, UpdateKind::Output),
            op(1, UpdateKind::State),
            op(1, UpdateKind::Output),
            op(2, UpdateKind::Output),
            op(0, UpdateKind::State),
        ]
    );
}

#[test]
fn combinational_cycle_is_refused() {
    // the heater's output feeds a stateless block whose output feeds the heater
    let blocks = vec![StateKind::Stateless, StateKind::Stateless];
    let wires = vec![
        Connection { producer: 0, consumer: 1, to_state: false, to_output: true },
        Connection { producer: 1, consumer: 0, to_state: false, to_output: true },
    ];
    assert_eq!(schedule(&blocks, &wires), Err(ScheduleError::UnresolvableCycle));
    // through a discrete state the loop is still combinational: its output reads the new value
    let blocks = vec![StateKind::Discrete, StateKind::Stateless];
    let wires = vec![
        Connection { producer: 0, consumer: 1, to_state: false, to_output: true },
        Connection { producer: 1, consumer: 0, to_state: true, to_output: false },
    ];
    assert_eq!(schedule(&blocks, &wires), Err(ScheduleError::UnresolvableCycle));
}

#[test]
fn schedule_unknown_block_is_refused() {
    let blocks = vec![StateKind::Stateless];
    let wires = vec![Connection { producer: 0, consumer: 3, to_state: false, to_output: false }];
    assert_eq!(schedule(&blocks, &wires), Err(ScheduleError::UnknownNode));
}

fn controller() -> SystemImpl<f64> {
    let params = ControllerParams {
        cp: 4000.0,
        h: 10.0,
        area: 1.0,
        t_amb: 20.0,
        t0: 20.0,
        low_threshold: 30.0,
        high_threshold: 32.0,
        out_inverted: true,
        heater_on: 500.0,
        heater_off: 0.0,
    };
    match SystemImpl::new(0.0f64, params) {
        Ok(sys) => sys,
        Err(e) => panic!("assembly failed: {:?}", e),
    }
}

#[test]
fn controller_assembly() {
    let sys = controller();
    assert_eq!(
        sys.computations,
        vec![
            op(0, UpdateKind::Output),
            op(1, UpdateKind::State),
            op(1, UpdateKind::Output),
            op(2, UpdateKind::Output),
            op(0, UpdateKind::State),
        ]
    );
    let s = &sys.storage;
    assert_eq!(s.sizes(), SystemSize { r_param: 8, b_param: 1, r_state: 1, b_state: 1, r_out: 2, b_out: 1 });
    assert_eq!(sys.components.thermal_mass.cp.get(s), 4000.0);
    assert_eq!(sys.components.b2f.true_value.get(s), 500.0);
    assert!(sys.components.hyst_component.out_inverted.get(s));
    assert_eq!(sys.components.hyst_component.in1.output_id(), Some(sys.components.thermal_mass.t_out.id()));
}

#[test]
fn controller_first_step() {
    let mut sys = controller();
    sys.step(&less, &heat_balance);
    let s = &sys.storage;
    assert_eq!(sys.components.thermal_mass.t_out.get(s), 20.0);
    assert!(sys.components.hyst_component.out1.get(s));
    assert_eq!(sys.components.b2f.out1.get(s), 500.0);
    assert_eq!(sys.components.thermal_mass.t.der_get(s), 0.125);
    sys.advance_continuous_state(&|v: f64, d: f64| v + d * 5.0);
    assert_eq!(sys.components.thermal_mass.t.get(&sys.storage), 20.625);
}

#[test]
fn end_to_end_bounded_oscillation() {
    let mut sys = controller();
    let dt = 5.0f64;
    let mut temps = Vec::new();
    let mut heater = Vec::new();
    for _ in 0..100 {
        sys.step(&less, &heat_balance);
        sys.advance_continuous_state(&|v: f64, d: f64| v + d * dt);
        temps.push(sys.components.thermal_mass.t.get(&sys.storage));
        heater.push(sys.components.b2f.out1.get(&sys.storage));
    }
    let max = temps.iter().cloned().fold(f64::MIN, f64::max);
    assert!(max > 32.0 && max < 33.0, "max {}", max);
    let first_high = temps.iter().position(|t| *t > 32.0).unwrap();
    for t in &temps[first_high..] {
        assert!(*t > 29.5 && *t < 33.0, "t {}", t);
    }
    let late_min = temps[first_high..].iter().cloned().fold(f64::MAX, f64::min);
    assert!(late_min < 30.5, "min {}", late_min);
    let switches = heater.windows(2).filter(|w| w[0] != w[1]).count();
    assert!(switches >= 2, "switches {}", switches);
    assert!(heater.iter().all(|q| *q == 0.0 || *q == 500.0));
}
