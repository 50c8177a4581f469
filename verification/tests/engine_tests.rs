use logic_core::bits::Bits;
use logic_core::bits::LV;
use logic_core::ComponentManager;
use logic_core::PinType;

fn bit(v: LV) -> Bits {
    let mut b = Bits::new(1);
    b.set(0, v);
    b
}

fn run_to_quiescence(cm: &mut ComponentManager) {
    loop {
        cm.process_pin_events();
        if cm.pin_update_queue.len() == 0 {
            break;
        }
    }
}

#[test]
fn test_and_gate_low_low() {
    let mut cm = ComponentManager::new();
    let and = cm.create_gate("and").unwrap();
    assert_eq!(and, 1);
    // input pins 2 and 3, output pin 4
    cm.schedule_pin_update(0, 2, bit(LV::L));
    cm.schedule_pin_update(0, 3, bit(LV::L));
    run_to_quiescence(&mut cm);
    assert!(cm.get_pin_value(&4) == bit(LV::L));
    assert_eq!(cm.current_sim_time, 1);
}

#[test]
fn test_and_gate_high_high() {
    let mut cm = ComponentManager::new();
    let _and = cm.create_gate("and").unwrap();
    cm.schedule_pin_update(0, 2, bit(LV::H));
    cm.schedule_pin_update(0, 3, bit(LV::H));
    run_to_quiescence(&mut cm);
    assert!(cm.get_pin_value(&4) == bit(LV::H));
    assert_eq!(cm.current_sim_time, 1);
}

#[test]
fn test_and_gate_with_unknown() {
    let mut cm = ComponentManager::new();
    let _and = cm.create_gate("and").unwrap();
    cm.schedule_pin_update(0, 2, bit(LV::H));
    cm.schedule_pin_update(0, 3, bit(LV::X));
    run_to_quiescence(&mut cm);
    assert!(cm.get_pin_value(&4) == bit(LV::X));
    assert_eq!(cm.current_sim_time, 1);
}

#[test]
fn test_or_gate_with_high_impedance() {
    let mut cm = ComponentManager::new();
    let _or = cm.create_gate("or").unwrap();
    cm.schedule_pin_update(0, 2, bit(LV::L));
    cm.schedule_pin_update(0, 3, bit(LV::Z));
    run_to_quiescence(&mut cm);
    // L OR Z is X
    assert!(cm.get_pin_value(&4) == bit(LV::X));
    assert_eq!(cm.current_sim_time, 1);
}

#[test]
fn test_not_gate() {
    let mut cm = ComponentManager::new();
    let _not = cm.create_gate("not").unwrap();
    // input pin 2, output pin 3
    cm.schedule_pin_update(0, 2, bit(LV::H));
    run_to_quiescence(&mut cm);
    assert!(cm.get_pin_value(&3) == bit(LV::L));
    // an undriven input inverts to unknown
    let mut cm2 = ComponentManager::new();
    let _not2 = cm2.create_gate("not").unwrap();
    cm2.schedule_pin_update(0, 2, bit(LV::X));
    run_to_quiescence(&mut cm2);
    assert!(cm2.get_pin_value(&3) == bit(LV::X));
}

#[test]
fn test_not_chain_through_lump() {
    let mut cm = ComponentManager::new();
    let g1 = cm.create_gate("not").unwrap();
    // g1 = 1, g1.in = 2, g1.out = 3
    let g2 = cm.create_gate("not").unwrap();
    // g2 = 4, g2.in = 5, g2.out = 6
    let lump = cm.create_lump(1);
    assert_eq!(lump, 7);
    cm.connect_gate_pin_to_lump(&g1, &0, &PinType::OUT, &lump).unwrap();
    cm.connect_gate_pin_to_lump(&g2, &0, &PinType::IN, &lump).unwrap();
    cm.schedule_pin_update(0, 2, bit(LV::H));
    cm.process_pin_events();
    assert_eq!(cm.current_sim_time, 1);
    cm.process_pin_events();
    // g1 fired at time 1 and the lump broadcast reached g2's input
    assert!(cm.get_pin_value(&3) == bit(LV::L));
    assert!(cm.get_lump_value(&lump) == bit(LV::L));
    assert!(cm.get_pin_value(&5) == bit(LV::L));
    assert_eq!(cm.current_sim_time, 2);
    run_to_quiescence(&mut cm);
    assert!(cm.get_pin_value(&6) == bit(LV::H));
    assert_eq!(cm.current_sim_time, 2);
}

#[test]
fn test_idempotent_update_causes_nothing() {
    let mut cm = ComponentManager::new();
    let _and = cm.create_gate("and").unwrap();
    // drive input A to L and settle
    cm.schedule_pin_update(0, 2, bit(LV::L));
    run_to_quiescence(&mut cm);
    let out_before = cm.get_pin_value(&4);
    let t_before = cm.current_sim_time;
    // schedule the same value again, five units ahead
    cm.schedule_pin_update(5, 2, bit(LV::L));
    run_to_quiescence(&mut cm);
    assert!(cm.current_sim_time >= t_before + 5);
    assert_eq!(cm.gate_update_queue.len(), 0);
    assert_eq!(cm.lump_update_queue.len(), 0);
    assert!(cm.get_pin_value(&4) == out_before);
    assert!(cm.get_pin_value(&2) == bit(LV::L));
}

#[test]
fn test_time_monotonicity() {
    let mut cm = ComponentManager::new();
    let _and = cm.create_gate("and").unwrap();
    cm.schedule_pin_update(3, 2, bit(LV::H));
    cm.schedule_pin_update(7, 3, bit(LV::H));
    let mut last = cm.current_sim_time;
    for _ in 0..6 {
        cm.process_pin_events();
        assert!(cm.current_sim_time >= last);
        last = cm.current_sim_time;
    }
    assert!(cm.pin_update_queue.len() == 0);
    assert!(cm.get_pin_value(&4) == bit(LV::H));
}

#[test]
fn test_quiescent_call_changes_nothing() {
    let mut cm = ComponentManager::new();
    let _not = cm.create_gate("not").unwrap();
    cm.schedule_pin_update(0, 2, bit(LV::H));
    run_to_quiescence(&mut cm);
    let t = cm.current_sim_time;
    let v = cm.get_pin_value(&3);
    // nothing is scheduled: another call must change nothing
    cm.process_pin_events();
    assert_eq!(cm.current_sim_time, t);
    assert_eq!(cm.pin_update_queue.len(), 0);
    assert!(cm.get_pin_value(&3) == v);
}

#[test]
fn test_lump_broadcast_excludes_sender() {
    let mut cm = ComponentManager::new();
    let g1 = cm.create_gate("not").unwrap();
    let g2 = cm.create_gate("not").unwrap();
    let lump = cm.create_lump(1);
    cm.connect_gate_pin_to_lump(&g1, &0, &PinType::OUT, &lump).unwrap();
    cm.connect_gate_pin_to_lump(&g2, &0, &PinType::IN, &lump).unwrap();
    cm.schedule_pin_update(0, 2, bit(LV::H));
    cm.process_pin_events();
    cm.process_pin_events();
    // after the broadcast at time 1, no pending update targets the
    // sender pin (g1's output, pin 3)
    for e in cm.pin_update_queue.iter() {
        assert!(e.target_pin_id != 3);
    }
}

#[test]
fn test_unknown_gate_name() {
    let mut cm = ComponentManager::new();
    let r = cm.create_gate("nand");
    assert!(r.is_err());
    let e = r.err().unwrap();
    assert_eq!(e.name, "nand");
    // nothing was created
    assert_eq!(cm.counter, 0);
}

#[test]
fn test_connect_missing_entities() {
    let mut cm = ComponentManager::new();
    let _and = cm.create_gate("and").unwrap();
    let lump = cm.create_lump(1);
    // dead pin, live lump
    let r = cm.connect_pin_to_lump(&99, &lump);
    let e = r.err().unwrap();
    assert!(e.pin_missing);
    assert!(!e.lump_missing);
    assert_eq!(e.pin_id, 99);
    assert_eq!(e.lump_id, lump);
    // live pin, dead lump
    let r2 = cm.connect_pin_to_lump(&2, &98);
    let e2 = r2.err().unwrap();
    assert!(!e2.pin_missing);
    assert!(e2.lump_missing);
    // both dead
    let r3 = cm.connect_pin_to_lump(&99, &98);
    let e3 = r3.err().unwrap();
    assert!(e3.pin_missing && e3.lump_missing);
}

#[test]
fn test_disconnect_pin_from_lump() {
    let mut cm = ComponentManager::new();
    let g1 = cm.create_gate("not").unwrap();
    let lump = cm.create_lump(1);
    cm.connect_gate_pin_to_lump(&g1, &0, &PinType::OUT, &lump).unwrap();
    // pin 3 is g1's output
    cm.disconnect_pin_from_lump(&3, &lump);
    // a change of g1's output no longer reaches the lump
    cm.schedule_pin_update(0, 2, bit(LV::H));
    run_to_quiescence(&mut cm);
    assert!(cm.get_pin_value(&3) == bit(LV::L));
    assert!(cm.get_lump_value(&lump) == bit(LV::Z));
}

#[test]
fn test_get_gate_pins_layout() {
    let mut cm = ComponentManager::new();
    let and = cm.create_gate("and").unwrap();
    let ins = cm.get_gate_pins(&and, &PinType::IN);
    let outs = cm.get_gate_pins(&and, &PinType::OUT);
    let inouts = cm.get_gate_pins(&and, &PinType::INOUT);
    assert_eq!(ins, vec![2, 3]);
    assert_eq!(outs, vec![4]);
    assert!(inouts.is_empty());
    let not = cm.create_gate("not").unwrap();
    let ins2 = cm.get_gate_pins(&not, &PinType::IN);
    let outs2 = cm.get_gate_pins(&not, &PinType::OUT);
    assert_eq!(ins2, vec![6]);
    assert_eq!(outs2, vec![7]);
}

#[test]
fn test_initial_values_all_z() {
    let mut cm = ComponentManager::new();
    let _and = cm.create_gate("and").unwrap();
    let lump = cm.create_lump(1);
    assert!(cm.get_pin_value(&2) == bit(LV::Z));
    assert!(cm.get_pin_value(&3) == bit(LV::Z));
    assert!(cm.get_pin_value(&4) == bit(LV::Z));
    assert!(cm.get_lump_value(&lump) == bit(LV::Z));
    assert_eq!(cm.current_sim_time, 0);
}

#[test]
fn test_zero_delay_stimulus_lands_now() {
    let mut cm = ComponentManager::new();
    let _and = cm.create_gate("and").unwrap();
    // a delay-0 stimulus at time 0 is processed at time 0, so the
    // gate's output lands at time 1, not 2
    cm.schedule_pin_update(0, 2, bit(LV::H));
    cm.schedule_pin_update(0, 3, bit(LV::H));
    run_to_quiescence(&mut cm);
    assert_eq!(cm.current_sim_time, 1);
    assert!(cm.get_pin_value(&4) == bit(LV::H));
}
