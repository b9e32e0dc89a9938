use icfp_lang::alphabet::{
    convert_integer, convert_integer_to_bigint, convert_string, deconvert_integer,
    deconvert_integer_from_bigint, deconvert_string, INTEGER_ASCII, STRING_ASCII,
};
use icfp_lang::error::Error;
use icfp_lang::integer::Integer;

#[test]
fn test_deconvert_integer() {
    assert_eq!(
        deconvert_integer_from_bigint(Integer::from_i64(3389)),
        Ok("E&".to_string())
    );
}

#[test]
fn test_deconvert_string() {
    assert_eq!(
        deconvert_string("get echo".to_string()),
        Ok("'%4}%#(/".to_string())
    );
}

#[test]
fn whole_wire_alphabet_maps_to_text_alphabet() {
    assert_eq!(
        convert_string(INTEGER_ASCII.to_string()),
        Ok(STRING_ASCII.to_string())
    );
    assert_eq!(
        deconvert_string(STRING_ASCII.to_string()),
        Ok(INTEGER_ASCII.to_string())
    );
}

#[test]
fn text_codec_examples() {
    assert_eq!(
        convert_string("B%,,/}Q/2,$_".to_string()),
        Ok("Hello World!".to_string())
    );
    assert_eq!(
        deconvert_string("get echo".to_string()),
        Ok("'%4}%#(/".to_string())
    );
    assert_eq!(convert_string("".to_string()), Ok("".to_string()));
}

#[test]
fn text_codec_rejects_foreign_characters() {
    assert_eq!(convert_string("a b".to_string()), Err(Error::Alphabet));
    assert_eq!(convert_string("a\n".to_string()), Err(Error::Alphabet));
    assert_eq!(deconvert_string("{".to_string()), Err(Error::Alphabet));
    assert_eq!(deconvert_string("}".to_string()), Err(Error::Alphabet));
    assert_eq!(deconvert_string("\t".to_string()), Err(Error::Alphabet));
    assert_eq!(deconvert_string("é".to_string()), Err(Error::Alphabet));
}

#[test]
fn text_round_trip_on_values() {
    let wire = "SB%,,/}Q/2,$_".to_string();
    let text = convert_string(wire.clone()).unwrap();
    assert_eq!(deconvert_string(text), Ok(wire));
    let text = "Hello World!\n".to_string();
    let wire = deconvert_string(text.clone()).unwrap();
    assert_eq!(convert_string(wire), Ok(text));
}

#[test]
fn word_codec_examples() {
    assert_eq!(convert_integer("/6".to_string()), Ok(1337));
    assert_eq!(convert_integer("5".to_string()), Ok(20));
    assert_eq!(convert_integer("!".to_string()), Ok(0));
    assert_eq!(convert_integer("".to_string()), Ok(0));
    assert_eq!(convert_integer("!!/6".to_string()), Ok(1337));
    assert_eq!(deconvert_integer(1337), "/6".to_string());
    assert_eq!(deconvert_integer(0), "!".to_string());
    assert_eq!(deconvert_integer(93), "~".to_string());
    assert_eq!(deconvert_integer(94), "\"!".to_string());
    assert_eq!(deconvert_integer(3389), "E&".to_string());
}

#[test]
fn word_codec_errors() {
    assert_eq!(convert_integer("/ 6".to_string()), Err(Error::Alphabet));
    assert_eq!(
        convert_integer("~~~~~~~~~~~~~~~~~~~~".to_string()),
        Err(Error::Range)
    );
    assert_eq!(
        convert_integer("~~~~~~~~~~~~~~~~~~~~ ".to_string()),
        Err(Error::Alphabet)
    );
}

#[test]
fn word_round_trip_on_values() {
    for n in [0usize, 1, 93, 94, 95, 8835, 8836, 15818151, usize::MAX] {
        assert_eq!(convert_integer(deconvert_integer(n)), Ok(n));
    }
}

#[test]
fn big_codec_examples() {
    assert_eq!(
        convert_integer_to_bigint("/6".to_string()),
        Ok(Integer::from_i64(1337))
    );
    assert_eq!(
        convert_integer_to_bigint("".to_string()),
        Ok(Integer::from_i64(0))
    );
    assert_eq!(
        convert_integer_to_bigint("4%34".to_string()),
        Ok(Integer::from_i64(15818151))
    );
    assert_eq!(
        convert_integer_to_bigint("a b".to_string()),
        Err(Error::Alphabet)
    );
    assert_eq!(
        deconvert_integer_from_bigint(Integer::from_i64(0)),
        Ok("!".to_string())
    );
    assert_eq!(
        deconvert_integer_from_bigint(Integer::from_i64(15818151)),
        Ok("4%34".to_string())
    );
}

#[test]
fn negative_numbers_have_no_numeral() {
    assert_eq!(
        deconvert_integer_from_bigint(Integer::from_i64(-1)),
        Err(Error::Range)
    );
}

#[test]
fn big_round_trip_beyond_machine_words() {
    let numeral = "~~~~~~~~~~~~~~~~~~~~~~~~~~~~~~Hello".to_string();
    let n = convert_integer_to_bigint(numeral.clone()).unwrap();
    assert_eq!(convert_integer(numeral.clone()), Err(Error::Range));
    assert_eq!(deconvert_integer_from_bigint(n), Ok(numeral));
}
