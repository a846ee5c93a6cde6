use rlox::chunk::{Chunk, OpCode};
use rlox::error::ChunkError;
use rlox::value::{Number, Value};

#[test]
fn test_line_rle() {
    let mut chunk = Chunk::default();

    assert_eq!(chunk.get_line(0), None);
    assert_eq!(chunk.get_line(10), None);

    chunk.write(OpCode::Return.into(), 1);
    chunk.write(OpCode::Return.into(), 1);
    chunk.write(OpCode::Return.into(), 1);

    for offset in 0..=2 {
        assert_eq!(chunk.get_line(offset), Some(1));
    }

    assert_eq!(chunk.get_line(10), None);

    chunk.write(OpCode::Return.into(), 2);
    chunk.write(OpCode::Return.into(), 2);
    chunk.write(OpCode::Return.into(), 2);
    chunk.write(OpCode::Return.into(), 2);

    for offset in 3..=6 {
        assert_eq!(chunk.get_line(offset), Some(2));
    }

    assert_eq!(chunk.get_line(1000), None);

    chunk.write(OpCode::Return.into(), 3);
    chunk.write(OpCode::Return.into(), 3);
    chunk.write(OpCode::Return.into(), 3);
    chunk.write(OpCode::Return.into(), 3);
    chunk.write(OpCode::Return.into(), 3);

    for offset in 7..=11 {
        assert_eq!(chunk.get_line(offset), Some(3));
    }

    assert_eq!(chunk.get_line(10000), None);

    chunk.write(OpCode::Return.into(), 100);
    chunk.write(OpCode::Return.into(), 100);

    for offset in 12..=13 {
        assert_eq!(chunk.get_line(offset), Some(100));
    }
}

#[test]
fn line_table_round_trip_on_alternating_lines() {
    let lines = [5u32, 5, 1, 1, 1, 5, 7, 7, 5];
    let mut chunk = Chunk::new();
    for (i, &l) in lines.iter().enumerate() {
        chunk.write(i as u8, l);
    }
    for (i, &l) in lines.iter().enumerate() {
        assert_eq!(chunk.get_line(i), Some(l));
    }
    assert_eq!(chunk.get_line(lines.len()), None);
    assert_eq!(chunk.len(), lines.len());
}

#[test]
fn opcodes_encode_and_decode() {
    let all = [
        (OpCode::Constant, 0x00u8),
        (OpCode::ConstantLong, 0x01),
        (OpCode::Nil, 0x02),
        (OpCode::True, 0x03),
        (OpCode::False, 0x04),
        (OpCode::Add, 0x05),
        (OpCode::Subtract, 0x06),
        (OpCode::Multiply, 0x07),
        (OpCode::Divide, 0x08),
        (OpCode::Not, 0x09),
        (OpCode::Negate, 0x0A),
        (OpCode::Return, 0x0B),
        (OpCode::Equal, 0x0C),
        (OpCode::Greater, 0x0D),
        (OpCode::Less, 0x0E),
    ];
    for (op, b) in all {
        assert_eq!(u8::from(op), b);
        assert_eq!(OpCode::try_from(b), Ok(op));
    }
    assert_eq!(OpCode::try_from(0x0F), Err(ChunkError::BadOPCodeError(0x0F)));
    assert_eq!(OpCode::try_from(0xFF), Err(ChunkError::BadOPCodeError(0xFF)));
}

#[test]
fn reads_check_bounds() {
    let mut chunk = Chunk::new();
    chunk.write(0x0B, 1);
    chunk.write(0x42, 1);
    assert_eq!(chunk.read(0), Ok(0x0B));
    assert_eq!(chunk.read(2), Err(ChunkError::IPOutOfBoundsError));
    assert_eq!(chunk.read_op(0), Ok(OpCode::Return));
    assert_eq!(chunk.read_op(1), Err(ChunkError::BadOPCodeError(0x42)));
    assert_eq!(chunk.read_op(5), Err(ChunkError::IPOutOfBoundsError));
}

#[test]
fn constants_are_indexed_in_order() {
    let mut chunk = Chunk::new();
    assert_eq!(chunk.add_constant(Value::Number(Number::from_int(7))), 0);
    assert_eq!(chunk.add_constant(Value::Nil), 1);
    assert_eq!(chunk.constants_len(), 2);
    assert_eq!(chunk.read_constant(0).unwrap(), Value::Number(Number::from_int(7)));
    assert_eq!(chunk.read_constant(1).unwrap(), Value::Nil);
    assert!(matches!(chunk.read_constant(2), Err(ChunkError::IPOutOfBoundsError)));
}

#[test]
fn listing_walks_every_instruction() {
    let mut chunk = Chunk::new();
    chunk.add_constant(Value::Nil);
    chunk.write(OpCode::Constant.into(), 1);
    chunk.write(0, 1);
    chunk.write(OpCode::Not.into(), 1);
    chunk.write(0x42, 2);
    chunk.write(OpCode::ConstantLong.into(), 2);
    chunk.write(0, 3);
    chunk.write(1, 3);
    chunk.write(2, 3);
    chunk.write(OpCode::Constant.into(), 4);
    let listing = chunk.disassemble();
    assert_eq!(listing.len(), 5);
    assert_eq!(listing[0].offset, 0);
    assert_eq!(listing[0].line, Some(1));
    assert_eq!(listing[0].op, Ok(OpCode::Constant));
    assert_eq!(listing[0].constant, Some(0));
    assert_eq!(listing[1].offset, 2);
    assert_eq!(listing[1].line, None);
    assert_eq!(listing[1].op, Ok(OpCode::Not));
    assert_eq!(listing[2].op, Err(0x42));
    assert_eq!(listing[2].line, Some(2));
    assert_eq!(listing[3].op, Ok(OpCode::ConstantLong));
    assert_eq!(listing[3].constant, Some(258));
    assert_eq!(listing[3].line, None);
    assert_eq!(listing[3].next, 8);
    assert_eq!(listing[4].op, Ok(OpCode::Constant));
    assert_eq!(listing[4].constant, None);
    assert_eq!(listing[4].next, 9);
}
