use scriptlang::mem::{Loadable, Mem, MemBuf, MemError, MemLike, Storable};
use scriptlang::script::{Input, Instruction, TargetRegion, VM, u13, u4};

#[test]
fn u8_store_and_load_round_trip() {
    let mut m = Mem::new(vec![0u8; 4]);
    let end = 0xabu8.store_to(&mut m, 2).expect("store should fit");
    assert_eq!(end, 3);
    assert_eq!(m.to_words(), vec![0, 0, 0xab, 0]);
    let (end2, back) = u8::load_from(&m, 2).expect("load should fit");
    assert_eq!(end2, 3);
    assert_eq!(back, 0xab);
}

#[test]
fn u64_little_endian_layout() {
    let mut m = Mem::new(vec![0u8; 8]);
    let end = 0x0102030405060708u64.store_to(&mut m, 0).expect("store should fit");
    assert_eq!(end, 8);
    assert_eq!(m.to_words(), vec![8, 7, 6, 5, 4, 3, 2, 1]);
}

#[test]
fn u64_store_and_load_round_trip() {
    let mut m = Mem::new(vec![0u8; 16]);
    let value = 0x0123456789abcdefu64;
    let end = value.store_to(&mut m, 3).expect("store should fit");
    assert_eq!(end, 11);
    let (end2, back) = u64::load_from(&m, 3).expect("load should fit");
    assert_eq!(end2, 11);
    assert_eq!(back, value);
}

#[test]
fn store_beyond_the_end_is_out_of_memory_and_leaves_bytes_alone() {
    let mut m = Mem::new(vec![9u8; 8]);
    let r = 0x1122334455667788u64.store_to(&mut m, 5);
    assert_eq!(r, Err(MemError::OutOfMemory));
    assert_eq!(m.to_words(), vec![9; 8]);
}

#[test]
fn load_beyond_the_end_is_out_of_memory() {
    let m = Mem::new(vec![0u8; 8]);
    assert!(matches!(u64::load_from(&m, 1), Err(MemError::OutOfMemory)));
    assert!(matches!(u8::load_from(&m, 8), Err(MemError::OutOfMemory)));
}

#[test]
fn u16_store_and_load_round_trip() {
    let mut m = Mem::new(vec![0u8; 4]);
    let end = 0xbeefu16.store_to(&mut m, 1).expect("store should fit");
    assert_eq!(end, 3);
    assert_eq!(m.to_words(), vec![0, 0xef, 0xbe, 0]);
    let (_, back) = u16::load_from(&m, 1).expect("load should fit");
    assert_eq!(back, 0xbeef);
}

#[test]
fn u32_store_and_load_round_trip() {
    let mut m = Mem::new(vec![0u8; 6]);
    let end = 0xcafe1234u32.store_to(&mut m, 2).expect("store should fit");
    assert_eq!(end, 6);
    assert_eq!(m.to_words(), vec![0, 0, 0x34, 0x12, 0xfe, 0xca]);
    let (_, back) = u32::load_from(&m, 2).expect("load should fit");
    assert_eq!(back, 0xcafe1234);
}

#[test]
fn mem_stores_its_bytes_into_another() {
    let src = Mem::new(vec![1, 2, 3]);
    let mut dst = Mem::new(vec![0u8; 10]);
    let end = src.store_to(&mut dst, 4).expect("store should fit");
    assert_eq!(end, 7);
    assert_eq!(dst.to_words(), vec![0, 0, 0, 0, 1, 2, 3, 0, 0, 0]);
}

#[test]
fn membuf_loads_the_remainder() {
    let m = Mem::new(vec![10, 20, 30, 40, 50]);
    let (end, tail) = MemBuf::load_from(&m, 2).expect("load should succeed");
    assert_eq!(end, 5);
    assert_eq!(tail.to_words(), vec![30, 40, 50]);
}

#[test]
fn to_buffer_copies_the_bytes() {
    let m = Mem::new(vec![5, 6, 7]);
    let buf = m.to_buffer();
    assert_eq!(buf.to_words(), vec![5, 6, 7]);
    assert_eq!(buf.as_mem().to_words(), vec![5, 6, 7]);
}

#[test]
fn memlike_size_reports_the_length() {
    let m = Mem::new(vec![0u8; 12]);
    assert_eq!(m.size(), 12);
    let b = MemBuf::from_words(vec![0u8; 3]);
    assert_eq!(b.size(), 3);
}

#[test]
fn store_and_advance_moves_the_cursor() {
    let mut b = MemBuf::from_words(vec![0u8; 16]);
    let mut cursor: u32 = 0;
    b.store_and_advance(&mut cursor, &0x11u8).expect("store should fit");
    b.store_and_advance(&mut cursor, &0x2233445566778899u64).expect("store should fit");
    assert_eq!(cursor, 9);
    assert_eq!(
        b.to_words(),
        vec![0x11, 0x99, 0x88, 0x77, 0x66, 0x55, 0x44, 0x33, 0x22, 0, 0, 0, 0, 0, 0, 0]
    );
}

#[test]
fn load_and_advance_moves_the_cursor() {
    let b = MemBuf::from_words(vec![0x11, 0x99, 0x88, 0x77, 0x66, 0x55, 0x44, 0x33, 0x22, 0]);
    let mut cursor: u32 = 0;
    let first: u8 = b.load_and_advance(&mut cursor).expect("load should fit");
    assert_eq!(first, 0x11);
    let second: u64 = b.load_and_advance(&mut cursor).expect("load should fit");
    assert_eq!(second, 0x2233445566778899);
    assert_eq!(cursor, 9);
}

#[test]
fn failed_advance_leaves_the_cursor_alone() {
    let b = MemBuf::from_words(vec![0u8; 4]);
    let mut cursor: u32 = 2;
    let r: Result<u64, MemError> = b.load_and_advance(&mut cursor);
    assert!(matches!(r, Err(MemError::OutOfMemory)));
    assert_eq!(cursor, 2);
}

#[test]
fn four_bit_values() {
    let v = u4::new(0xf);
    assert_eq!(v.get(), 0xf);
    assert_eq!(u4::new(0).get(), 0);
}

#[test]
fn thirteen_bit_values() {
    let v = u13::new(0x1fff);
    assert_eq!(v.get(), 0x1fff);
    assert_eq!(u13::new(0).get(), 0);
}

#[test]
fn read_opcode_takes_the_low_byte() {
    let mut ins = Instruction::new(0x0000_0000_00aa_bbcc);
    assert_eq!(ins.read_opcode(), 0xcc);
    assert_eq!(ins.read_opcode(), 0xbb);
    assert_eq!(ins.read_opcode(), 0xaa);
    assert_eq!(ins.read_opcode(), 0);
}

#[test]
fn read_target_region_takes_one_bit() {
    let mut ins = Instruction::new(0b101);
    assert!(matches!(ins.read_target_region(), TargetRegion::High));
    assert!(matches!(ins.read_target_region(), TargetRegion::Low));
    assert!(matches!(ins.read_target_region(), TargetRegion::High));
}

#[test]
fn read_input_decodes_a_memory_reference() {
    // is_mem = 1, register = 5, constant = 0x1abc, in eighteen low bits.
    let word: u64 = 1 | (5 << 1) | (0x1abc << 5);
    let mut ins = Instruction::new(word | (0x77 << 18));
    match ins.read_input() {
        Input::Ref { register, constant } => {
            assert_eq!(register.get(), 5);
            assert_eq!(constant.get(), 0x1abc);
        },
        Input::Value { .. } => panic!("expected a memory reference"),
    }
    // The eighteen bits are consumed.
    assert_eq!(ins.read_opcode(), 0x77);
}

#[test]
fn read_input_decodes_a_direct_value() {
    let word: u64 = (9 << 1) | (0x0042 << 5);
    let mut ins = Instruction::new(word);
    match ins.read_input() {
        Input::Value { register, constant } => {
            assert_eq!(register.get(), 9);
            assert_eq!(constant.get(), 0x42);
        },
        Input::Ref { .. } => panic!("expected a direct value"),
    }
}

#[test]
fn instruction_store_and_load_round_trip() {
    let mut m = Mem::new(vec![0u8; 8]);
    let ins = Instruction::new(0xdead_beef_cafe_f00d);
    let end = ins.store_to(&mut m, 0).expect("store should fit");
    assert_eq!(end, 8);
    let (_, mut back) = Instruction::load_from(&m, 0).expect("load should fit");
    assert_eq!(back.read_opcode(), 0x0d);
    assert_eq!(back.read_opcode(), 0xf0);
}

#[test]
fn vm_pops_instructions_and_stack_values() {
    let mut code = MemBuf::from_words(vec![0u8; 32]);
    let mut cursor: u32 = 0;
    code.store_and_advance(&mut cursor, &0x1111_2222_3333_4444u64).expect("store");
    code.store_and_advance(&mut cursor, &0x5555_6666_7777_8888u64).expect("store");
    let mut vm = VM::new(code, 0, 16);
    let mut first = vm.pop_instruction();
    assert_eq!(first.read_opcode(), 0x44);
    let mut second = vm.pop_instruction();
    assert_eq!(second.read_opcode(), 0x88);
    assert_eq!(vm.ip_ptr, 16);

    vm.push(&0xaabb_ccdd_0011_2233u64);
    assert_eq!(vm.stack_ptr, 24);
    vm.stack_ptr = 16;
    let back: u64 = vm.pop();
    assert_eq!(back, 0xaabb_ccdd_0011_2233);
    assert_eq!(vm.stack_ptr, 24);
}
