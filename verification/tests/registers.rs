use sandlock_core::seccomp::notif_metadata::{
    parse_registers, MetadataReader, MetadataStep, RegisterFault, TaskRegisters,
};
use sandlock_core::seccomp::{SeccompData, SeccompNotif};

const NATIVE: u32 = 0xc000003e;

fn notif(nr: i32, arch: u32) -> SeccompNotif {
    SeccompNotif {
        id: 5,
        pid: 77,
        flags: 0,
        data: SeccompData { nr, arch, instruction_pointer: 1, args: [0; 6] },
    }
}

fn registers() -> TaskRegisters {
    TaskRegisters { nr: 39, instruction_pointer: 0x90, args: [11, 22, 33, 44, 55, 66] }
}

#[test]
fn blocked_registers_preserve_all_argument_bits() {
    let data =
        parse_registers("56 0xffffffffffffff9c 0x1234 0x80041 0x1a4 0x0 0xffff 0x80 0x90\n").unwrap();
    assert_eq!(data.nr, 56);
    assert_eq!(data.args, [(-100i64) as u64, 0x1234, 0x80041, 0x1a4, 0, 0xffff]);
    assert_eq!(data.instruction_pointer, 0x90);
}

#[test]
fn incomplete_or_running_registers_are_rejected() {
    for text in [
        "running",
        "-1 0x80 0x90",
        "56 0x1",
        "56 1 2 3 4 5 6 7 8",
        "56 0x1 0x2 0x3 0x4 0x5 0x6 0x7 0x8 extra",
    ] {
        assert!(parse_registers(text).is_err(), "{text}");
    }
}

#[test]
fn a_running_task_is_told_apart_from_malformed_registers() {
    assert_eq!(parse_registers("  running \n").err(), Some(RegisterFault::Running));
    assert_eq!(parse_registers("running late").err(), Some(RegisterFault::Invalid));
    assert_eq!(parse_registers("").err(), Some(RegisterFault::Invalid));
    assert_eq!(
        parse_registers("-5 0x1 0x2 0x3 0x4 0x5 0x6 0x7 0x8").err(),
        Some(RegisterFault::Invalid)
    );
    assert_eq!(
        parse_registers("1 0x1 0x2 0x3 0x4 0x5 0x10000000000000000 0x7 0x8").err(),
        Some(RegisterFault::Invalid)
    );
}

#[test]
fn registers_take_both_cases_of_hexadecimal_digits() {
    let data = parse_registers("0\t0xaB 0xFf 0x0 0x0 0x0 0x0 0x0 0xDEADbeef").unwrap();
    assert_eq!(data.args[0], 0xab);
    assert_eq!(data.args[1], 0xff);
    assert_eq!(data.instruction_pointer, 0xdeadbeef);
}

#[test]
fn one_malformed_notification_distrusts_the_rest() {
    let mut reader = MetadataReader::default();
    assert!(!reader.take(&notif(1, NATIVE), NATIVE));
    assert!(reader.take(&notif(1, 0), NATIVE));
    assert!(reader.take(&notif(1, NATIVE), NATIVE));
    let mut other = MetadataReader::default();
    assert!(other.take(&notif(-1, NATIVE), NATIVE));
}

#[test]
fn recovered_notifications_carry_the_registers_of_the_task() {
    let reader = MetadataReader { use_proc: true };
    match reader.validate(&notif(-1, 0), NATIVE, 0, Ok(registers())) {
        MetadataStep::Recovered(next) => {
            assert_eq!(next.id, 5);
            assert_eq!(next.pid, 77);
            assert_eq!(next.data.nr, 39);
            assert_eq!(next.data.arch, NATIVE);
            assert_eq!(next.data.args, [11, 22, 33, 44, 55, 66]);
        }
        other => panic!("{other:?}"),
    }
}

#[test]
fn a_task_that_never_sleeps_is_refused() {
    let reader = MetadataReader { use_proc: true };
    for attempt in 0..9 {
        let step = reader.validate(&notif(-1, 0), NATIVE, attempt, Err(RegisterFault::Running));
        assert!(matches!(step, MetadataStep::Retry));
    }
    let step = reader.validate(&notif(-1, 0), NATIVE, 9, Err(RegisterFault::Running));
    assert!(matches!(step, MetadataStep::Refuse(RegisterFault::Running)));
    let step = reader.validate(&notif(-1, 0), NATIVE, 0, Err(RegisterFault::Failed));
    assert!(matches!(step, MetadataStep::Refuse(RegisterFault::Failed)));
}
