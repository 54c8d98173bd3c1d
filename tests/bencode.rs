use tcore::decoder::{decode, decode_chunks, DecodeError, Decoder, Step};
use tcore::stack::StructureKind;
use tcore::token::{read_token, Token, TokenError, Tokenizer};
use tcore::value::Value;

fn decode_in_chunks(src: &[u8], size: usize) -> Result<Value, DecodeError> {
    let chunks: Vec<Vec<u8>> = src.chunks(size).map(|c| c.to_vec()).collect();
    decode_chunks(&chunks)
}

#[test]
fn bencode_valid_int() {
    let buf = b"i42e";
    assert_eq!(read_token(buf, 0), Ok((Token::Int(42, 0), 4)));
}

#[test]
fn decoder_valid_int() {
    let buf = b"i42e";
    let (tok, len) = read_token(buf, 0).unwrap();
    assert_eq!((Some(tok), len), (Some(Token::Int(42, 0)), 4));
}

#[test]
fn parser_valid_int() {
    let buf = b"i42e";
    assert_eq!(decode(buf).unwrap(), Value::Int(42));
    assert_eq!(read_token(buf, 0).unwrap().1, 4);
}

#[test]
fn bencode_valid_string() {
    let src = b"4:test";
    assert_eq!(decode(src), Ok(Value::string(b"test".to_vec())));
}

#[test]
fn decoder_valid_string() {
    let src = b"4:test";
    assert_eq!(decode_in_chunks(src, 4096).unwrap(), Value::string(Vec::from("test")));
}

#[test]
fn parser_valid_string() {
    let buf = b"4:test";
    assert_eq!(read_token(buf, 0).unwrap(), (Token::String(b"test".to_vec(), 0), 6));
}

#[test]
fn bencode_valid_flat_list() {
    let src = b"li42e4:teste";
    assert_eq!(
        decode(src),
        Ok(Value::list(vec![Value::integer(42), Value::string(b"test".to_vec())]))
    );
}

#[test]
fn decoder_valid_flat_list() {
    let src = b"li42e4:teste";
    assert_eq!(
        decode_in_chunks(src, 4096).unwrap(),
        Value::list(vec![Value::integer(42), Value::string(Vec::from("test"))])
    );
}

#[test]
fn bencode_valid_flat_dict() {
    let src = b"d4:testi42ee";
    assert_eq!(
        decode(src),
        Ok(Value::dictionary(vec![(b"test".to_vec(), Value::integer(42))]))
    );
}

#[test]
fn decoder_valid_flat_dict() {
    let src = b"d4:testi42ee";
    assert_eq!(
        decode_in_chunks(src, 4096).unwrap(),
        Value::dictionary(vec![(Vec::from("test"), Value::integer(42))])
    );
}

#[test]
fn single_valid_int_token() {
    let input = b"i4e";
    let mut dec = Tokenizer::new(input);
    assert_eq!(dec.next_token().unwrap(), Token::Int(4, 0));
    assert_eq!(dec.position(), 3);
}

#[test]
fn multiple_valid_int_token() {
    let input = b"i42ei6e";
    let mut dec = Tokenizer::new(input);
    assert_eq!(dec.next_token().unwrap(), Token::Int(42, 0));
    assert_eq!(dec.position(), 4);
    assert_eq!(dec.next_token().unwrap(), Token::Int(6, 4));
    assert_eq!(dec.position(), 7);
}

#[test]
fn error_int_is_not_finished() {
    let input = b"i42";
    let mut dec = Tokenizer::new(input);
    assert!(matches!(dec.next_token().unwrap_err(), TokenError::UnfinishedInt));
}

#[test]
fn single_valid_string_token() {
    let input = b"4:test";
    let mut dec = Tokenizer::new(input);
    assert_eq!(dec.next_token().unwrap(), Token::String(b"test".to_vec(), 0));
    assert_eq!(dec.position(), 6);
}

#[test]
fn multiple_valid_string_token() {
    let input = b"4:test3:foo";
    let mut dec = Tokenizer::new(input);
    assert_eq!(dec.next_token().unwrap(), Token::String(b"test".to_vec(), 0));
    assert_eq!(dec.position(), 6);
    assert_eq!(dec.next_token().unwrap(), Token::String(b"foo".to_vec(), 6));
    assert_eq!(dec.position(), 11);
}

#[test]
fn error_string_is_not_finished() {
    let input = b"4:tes";
    let mut dec = Tokenizer::new(input);
    assert!(matches!(
        dec.next_token().unwrap_err(),
        TokenError::UnfinishedString(0, 4, 3)
    ));
}

#[test]
fn peek_does_not_move() {
    let input = b"le";
    let dec = Tokenizer::new(input);
    assert_eq!(dec.peek_token(), Ok((Token::BeginList(0), 1)));
    assert_eq!(dec.position(), 0);
}

#[test]
fn end_object_carries_offset_of_its_byte() {
    let mut dec = Tokenizer::new(b"de");
    assert_eq!(dec.next_token(), Ok(Token::BeginDict(0)));
    assert_eq!(dec.next_token(), Ok(Token::EndObject(1)));
    assert_eq!(dec.next_token(), Err(TokenError::EndOfBuffer));
}

#[test]
fn invalid_syntax_cases() {
    assert_eq!(decode(b"i-0e"), Err(DecodeError::InvalidSyntax));
    assert_eq!(decode(b"i042e"), Err(DecodeError::InvalidSyntax));
    assert_eq!(decode(b"04:test"), Err(DecodeError::InvalidSyntax));
    assert_eq!(decode(b"ie"), Err(DecodeError::InvalidSyntax));
    assert_eq!(decode(b"i-e"), Err(DecodeError::InvalidSyntax));
    assert_eq!(decode(b"i+5e"), Err(DecodeError::InvalidSyntax));
    assert_eq!(decode(b"i4xe"), Err(DecodeError::InvalidSyntax));
    assert_eq!(decode(b"x"), Err(DecodeError::InvalidSyntax));
    assert_eq!(decode(b"e"), Err(DecodeError::InvalidSyntax));
}

#[test]
fn value_too_large_cases() {
    assert_eq!(decode(b"i1234567890123456789012e"), Err(DecodeError::ValueTooLarge));
    assert_eq!(decode(b"1234567890123456789012:x"), Err(DecodeError::ValueTooLarge));
}

#[test]
fn integer_edges() {
    assert_eq!(decode(b"i0e"), Ok(Value::integer(0)));
    assert_eq!(decode(b"i-42e"), Ok(Value::integer(-42)));
    assert_eq!(decode(b"i9223372036854775807e"), Ok(Value::integer(i64::MAX)));
    assert_eq!(decode(b"i-9223372036854775808e"), Ok(Value::integer(i64::MIN)));
    assert_eq!(decode(b"i9223372036854775808e"), Err(DecodeError::InvalidSyntax));
}

#[test]
fn empty_string_and_nul_bytes() {
    assert_eq!(decode(b"0:"), Ok(Value::string(Vec::new())));
    assert_eq!(decode(b"3:a\x00b"), Ok(Value::string(vec![b'a', 0, b'b'])));
}

#[test]
fn unexpected_eof_cases() {
    assert_eq!(decode(b"i42"), Err(DecodeError::UnexpectedEof));
    assert_eq!(decode(b"li42e4:test"), Err(DecodeError::UnexpectedEof));
    assert_eq!(decode(b""), Err(DecodeError::UnexpectedEof));
    assert_eq!(decode(b"4:te"), Err(DecodeError::UnexpectedEof));
}

#[test]
fn trailing_data_in_buffer() {
    assert_eq!(decode(b"li42e4:teste3:cow"), Err(DecodeError::TrailingDataInBuffer));
    assert_eq!(decode(b"i1ei2e"), Err(DecodeError::TrailingDataInBuffer));
}

#[test]
fn integer_key_is_push_to_dict() {
    assert_eq!(
        decode(b"di42e4:teste"),
        Err(DecodeError::InvalidStructure(StructureKind::PushToDict))
    );
}

#[test]
fn key_without_value_is_orphaned() {
    assert_eq!(
        decode(b"d4:teste"),
        Err(DecodeError::InvalidStructure(StructureKind::OrphanedKey))
    );
}

#[test]
fn nested_values() {
    let v = decode(b"d1:ali1eli2eee1:bd1:ci3eee").unwrap();
    let expected = Value::dictionary(vec![
        (
            b"a".to_vec(),
            Value::list(vec![Value::integer(1), Value::list(vec![Value::integer(2)])]),
        ),
        (
            b"b".to_vec(),
            Value::dictionary(vec![(b"c".to_vec(), Value::integer(3))]),
        ),
    ]);
    assert_eq!(v, expected);
}

#[test]
fn dictionary_keys_are_kept_in_order_and_last_wins() {
    let v = decode(b"d1:bi2e1:ai1e1:bi3ee").unwrap();
    assert_eq!(
        v,
        Value::dictionary(vec![(b"a".to_vec(), Value::integer(1)), (b"b".to_vec(), Value::integer(3))])
    );
    assert_eq!(
        Value::dictionary(vec![(b"b".to_vec(), Value::integer(2)), (b"a".to_vec(), Value::integer(1))]),
        Value::dictionary(vec![(b"a".to_vec(), Value::integer(1)), (b"b".to_vec(), Value::integer(2))])
    );
}

#[test]
fn chunking_does_not_change_the_value() {
    let src = b"d4:spaml1:a1:be3:fooi42e1:zi-7ee";
    let whole = decode(src).unwrap();
    for size in 1..src.len() + 1 {
        assert_eq!(decode_in_chunks(src, size).unwrap(), whole);
    }
}

#[test]
fn chunking_keeps_errors() {
    for size in 1..6 {
        assert_eq!(decode_in_chunks(b"li42e4:test", size), Err(DecodeError::UnexpectedEof));
        assert_eq!(
            decode_in_chunks(b"d4:teste", size),
            Err(DecodeError::InvalidStructure(StructureKind::OrphanedKey))
        );
        assert_eq!(decode_in_chunks(b"i042e", size), Err(DecodeError::InvalidSyntax));
    }
}

#[test]
fn value_type_names() {
    assert_eq!(Value::integer(1).kind_name(), "int");
    assert_eq!(Value::string_ref(b"x").kind_name(), "string");
    assert_eq!(Value::list(Vec::new()).kind_name(), "list");
    assert_eq!(Value::dictionary(Vec::new()).kind_name(), "dictionary");
}

#[test]
fn text_constructor_keeps_utf8_bytes() {
    assert_eq!(Value::text("tëst"), Value::string("tëst".as_bytes().to_vec()));
}

#[test]
fn streaming_decoder_counts_its_bytes() {
    let mut dec = Decoder::with_capacity(2);
    dec.refill(b"l");
    dec.refill(b"i1e");
    assert_eq!(dec.buffered(), 4);
    let dec = match dec.decode() {
        Step::Pending(d) => d,
        _ => panic!("the list is not finished"),
    };
    assert_eq!(dec.finish(), Err(DecodeError::UnexpectedEof));
}

#[test]
fn streaming_decoder_sees_trailing_bytes_of_one_chunk() {
    let mut dec = Decoder::new();
    dec.refill(b"i1ei2e");
    assert!(matches!(dec.decode(), Step::Failed(DecodeError::TrailingDataInBuffer)));
}

#[test]
fn error_int_too_large() {
    // 22 characters between `i` and `e`: one more than allowed
    let input = b"i1000000000000000000000e";
    let mut dec = Tokenizer::new(input);
    assert!(matches!(dec.next_token().unwrap_err(), TokenError::ValueTooLarge));
}

#[test]
fn error_string_too_large() {
    // a 22-digit length: one digit more than allowed
    let input = b"1000000000000000000000:ssss";
    let mut dec = Tokenizer::new(input);
    assert!(matches!(dec.next_token().unwrap_err(), TokenError::ValueTooLarge));
}

#[test]
fn uneven_chunks_give_the_whole_value() {
    let src = b"d4:spaml1:a1:be3:fooi42e1:zi-7ee";
    let whole = decode(src).unwrap();
    let cuts: Vec<Vec<u8>> = vec![
        src[..1].to_vec(),
        Vec::new(),
        src[1..9].to_vec(),
        src[9..10].to_vec(),
        src[10..].to_vec(),
    ];
    assert_eq!(decode_chunks(&cuts).unwrap(), whole);
}

#[test]
fn chunk_ending_at_the_value_hides_trailing_bytes() {
    let cuts = vec![b"i1e".to_vec(), b"i2e".to_vec()];
    assert_eq!(decode_chunks(&cuts), Ok(Value::integer(1)));
    assert_eq!(decode(b"i1ei2e"), Err(DecodeError::TrailingDataInBuffer));
    let joined = vec![b"i1ei".to_vec(), b"2e".to_vec()];
    assert_eq!(decode_chunks(&joined), Err(DecodeError::TrailingDataInBuffer));
}
