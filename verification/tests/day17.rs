use aoc2024::day17::{oct, parse_input, run1, run2_impl, CpuState, Op};

#[test]
fn s1_works() {
    let input = r#"
Register A: 729
Register B: 0
Register C: 0

Program: 0,1,5,4,3,0
"#
    .trim();

    let (cpu, prog) = parse_input(input).unwrap();
    assert_eq!(run1(&cpu, &prog), "4,6,3,5,6,3,5,2,1,0");
}

#[test]
fn s2_works() {
    let input = r#"
Register A: 2024
Register B: 0
Register C: 0

Program: 0,3,5,4,3,0
"#
    .trim();

    let (_, prog) = parse_input(input).unwrap();
    assert_eq!(run2_impl(&prog), "117440");
}

#[test]
fn day17_instructions() {
    let mut cpu = CpuState { ip: 0, a: 0, b: 0, c: 9 };
    assert_eq!(cpu.exec(Op::Bst(6)), None);
    assert_eq!(cpu.b, 1);
    let mut cpu = CpuState { ip: 0, a: 10, b: 0, c: 0 };
    assert_eq!(cpu.exec(Op::Out(4)), Some(2));
    assert_eq!(cpu.ip, 2);
    let mut cpu = CpuState { ip: 4, a: 1, b: 0, c: 0 };
    cpu.exec(Op::Jnz(0));
    assert_eq!(cpu.ip, 0);
    let mut cpu = CpuState { ip: 0, a: 0, b: 29, c: 0 };
    cpu.exec(Op::Bxl(7));
    assert_eq!(cpu.b, 26);
    let mut cpu = CpuState { ip: 0, a: 0, b: 2024, c: 43690 };
    cpu.exec(Op::Bxc);
    assert_eq!(cpu.b, 44354);
}

#[test]
fn day17_oct_packs_digits() {
    // prints 0,1,2 then halts when a reaches 0
    let prog = [0u8, 1, 5, 4, 3, 0];
    let (bits, len) = oct(10, &prog);
    // a: 10 -> 5 prints 5&7=5, 2 prints 2, 1 prints 1, 0 prints 0
    assert_eq!(len, 4);
    assert_eq!(bits, 5 | (2 << 3) | (1 << 6));
}

#[test]
fn day17_bad_program_is_refused() {
    assert!(parse_input("Register A: 1\nRegister B: 0\nRegister C: 0\n\nProgram: 0,x").is_err());
    assert!(parse_input("Register A: 1\nRegister B: 0").is_err());
}
