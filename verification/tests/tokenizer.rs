use icfp_lang::error::Error;
use icfp_lang::integer::Integer;
use icfp_lang::tokenizer::{Token, Tokenizer};

#[test]
fn test_tokenize_integer() {
    let input = "I/6 + I5";
    let expected = vec![
        Token::Integer(Integer::from_u64(1337)),
        Token::Unknown("+".to_string()),
        Token::Integer(Integer::from_u64(20)),
    ];
    let mut tokenizer = Tokenizer::new(input);
    let result = tokenizer.tokenize();
    assert_eq!(result, Ok(expected));
}

#[test]
fn test_tokenize_boolean() {
    let input = "T F T F";
    let expected = vec![
        Token::Boolean(true),
        Token::Boolean(false),
        Token::Boolean(true),
        Token::Boolean(false),
    ];
    let mut tokenizer = Tokenizer::new(input);
    let result = tokenizer.tokenize();
    assert_eq!(result, Ok(expected));
}

#[test]
fn test_tokenize_string() {
    let input = "SB%,,/}Q/2,$_";
    let expected = vec![Token::String("Hello World!".to_string())];
    let mut tokenizer = Tokenizer::new(input);
    let result = tokenizer.tokenize();
    assert_eq!(result, Ok(expected));
}

#[test]
fn test_tokenize_unary_operator() {
    let input = "U+ U- U* U/";
    let expected = vec![
        Token::UnaryOperator("+".to_string()),
        Token::UnaryOperator("-".to_string()),
        Token::UnaryOperator("*".to_string()),
        Token::UnaryOperator("/".to_string()),
    ];
    let mut tokenizer = Tokenizer::new(input);
    let result = tokenizer.tokenize();
    assert_eq!(result, Ok(expected));
}

#[test]
fn test_tokenize_binary_operator() {
    let input = "B+ B- B* B/";
    let expected = vec![
        Token::BinaryOperator("+".to_string()),
        Token::BinaryOperator("-".to_string()),
        Token::BinaryOperator("*".to_string()),
        Token::BinaryOperator("/".to_string()),
    ];
    let mut tokenizer = Tokenizer::new(input);
    let result = tokenizer.tokenize();
    assert_eq!(result, Ok(expected));
}

#[test]
fn test_tokenize_if() {
    let input = "?";
    let expected = vec![Token::If];
    let mut tokenizer = Tokenizer::new(input);
    let result = tokenizer.tokenize();
    assert_eq!(result, Ok(expected));
}

#[test]
fn test_tokenize_lambda() {
    let input = "L#";
    let expected = vec![Token::Lambda(Integer::from_u64(2))];
    let mut tokenizer = Tokenizer::new(input);
    let result = tokenizer.tokenize();
    assert_eq!(result, Ok(expected));
}

#[test]
fn test_tokenize_variable() {
    let input = "v#";
    let expected = vec![Token::Variable(Integer::from_u64(2))];
    let mut tokenizer = Tokenizer::new(input);
    let result = tokenizer.tokenize();
    assert_eq!(result, Ok(expected));
}

#[test]
fn tokenize_empty_and_blank_text() {
    assert_eq!(Tokenizer::new("").tokenize(), Ok(vec![]));
    assert_eq!(Tokenizer::new("   ").tokenize(), Ok(vec![]));
}

#[test]
fn tokenize_skips_repeated_spaces() {
    assert_eq!(
        Tokenizer::new("  T   F ").tokenize(),
        Ok(vec![Token::Boolean(true), Token::Boolean(false)])
    );
}

#[test]
fn tokenize_whole_program() {
    let tokens = Tokenizer::new("B$ B$ L# L$ v# B. SB%,,/ S}Q/2,$_ IK").tokenize();
    assert_eq!(
        tokens,
        Ok(vec![
            Token::BinaryOperator("$".to_string()),
            Token::BinaryOperator("$".to_string()),
            Token::Lambda(Integer::from_u64(2)),
            Token::Lambda(Integer::from_u64(3)),
            Token::Variable(Integer::from_u64(2)),
            Token::BinaryOperator(".".to_string()),
            Token::String("Hello".to_string()),
            Token::String(" World!".to_string()),
            Token::Integer(Integer::from_u64(42)),
        ])
    );
}

#[test]
fn tokenize_bare_numerals_are_zero() {
    assert_eq!(
        Tokenizer::new("I L v S").tokenize(),
        Ok(vec![
            Token::Integer(Integer::from_u64(0)),
            Token::Lambda(Integer::from_u64(0)),
            Token::Variable(Integer::from_u64(0)),
            Token::String("".to_string()),
        ])
    );
}

#[test]
fn tokenize_runs_that_fit_no_production() {
    assert_eq!(
        Tokenizer::new("TT Fx ?? U U+- B B.. x").tokenize(),
        Ok(vec![
            Token::Unknown("TT".to_string()),
            Token::Unknown("Fx".to_string()),
            Token::Unknown("??".to_string()),
            Token::Unknown("U".to_string()),
            Token::Unknown("U+-".to_string()),
            Token::Unknown("B".to_string()),
            Token::Unknown("B..".to_string()),
            Token::Unknown("x".to_string()),
        ])
    );
}

#[test]
fn tokenize_rejects_characters_outside_the_wire_alphabet() {
    assert_eq!(Tokenizer::new("I\n").tokenize(), Err(Error::Alphabet));
    assert_eq!(Tokenizer::new("T S\t").tokenize(), Err(Error::Alphabet));
    assert_eq!(Tokenizer::new("Lé").tokenize(), Err(Error::Alphabet));
    assert_eq!(Tokenizer::new("v\u{7f} T").tokenize(), Err(Error::Alphabet));
}

#[test]
fn tokenize_integer_beyond_machine_words() {
    let tokens = Tokenizer::new("I~~~~~~~~~~~~~~~~~~~~~~~~").tokenize().unwrap();
    assert_eq!(tokens.len(), 1);
    assert_eq!(
        tokens[0].to_string(),
        Ok("I~~~~~~~~~~~~~~~~~~~~~~~~".to_string())
    );
}

#[test]
fn single_production_readers_stop_at_the_space() {
    let mut tokenizer = Tokenizer::new("I/6 SB%,,/");
    assert_eq!(
        tokenizer.tokenize_integer(),
        Ok(Token::Integer(Integer::from_u64(1337)))
    );
    assert_eq!(
        tokenizer.tokenize(),
        Ok(vec![Token::String("Hello".to_string())])
    );
    let mut tokenizer = Tokenizer::new("xyz T");
    assert_eq!(
        tokenizer.tokenize_unknown(),
        Ok(Token::Unknown("xyz".to_string()))
    );
    assert_eq!(tokenizer.tokenize(), Ok(vec![Token::Boolean(true)]));
}

#[test]
fn token_to_string_examples() {
    assert_eq!(
        Token::Integer(Integer::from_u64(1337)).to_string(),
        Ok("I/6".to_string())
    );
    assert_eq!(
        Token::Integer(Integer::from_u64(0)).to_string(),
        Ok("I!".to_string())
    );
    assert_eq!(Token::Boolean(true).to_string(), Ok("T".to_string()));
    assert_eq!(Token::Boolean(false).to_string(), Ok("F".to_string()));
    assert_eq!(
        Token::String("Hello World!".to_string()).to_string(),
        Ok("SB%,,/}Q/2,$_".to_string())
    );
    assert_eq!(
        Token::UnaryOperator("-".to_string()).to_string(),
        Ok("U-".to_string())
    );
    assert_eq!(
        Token::BinaryOperator("$".to_string()).to_string(),
        Ok("B$".to_string())
    );
    assert_eq!(Token::If.to_string(), Ok("?".to_string()));
    assert_eq!(
        Token::Lambda(Integer::from_u64(2)).to_string(),
        Ok("L#".to_string())
    );
    assert_eq!(
        Token::Variable(Integer::from_u64(2)).to_string(),
        Ok("v#".to_string())
    );
    assert_eq!(
        Token::Unknown("+".to_string()).to_string(),
        Ok("+".to_string())
    );
}

#[test]
fn token_to_string_errors() {
    assert_eq!(
        Token::Integer(Integer::from_i64(-1)).to_string(),
        Err(Error::Range)
    );
    assert_eq!(
        Token::Lambda(Integer::from_i64(-7)).to_string(),
        Err(Error::Range)
    );
    assert_eq!(
        Token::Variable(Integer::from_i64(-7)).to_string(),
        Err(Error::Range)
    );
    assert_eq!(
        Token::String("{".to_string()).to_string(),
        Err(Error::Alphabet)
    );
}

#[test]
fn token_round_trip_on_values() {
    let tokens = vec![
        Token::Integer(Integer::from_u64(15818151)),
        Token::Boolean(true),
        Token::String("a b\nc".to_string()),
        Token::UnaryOperator("#".to_string()),
        Token::BinaryOperator("T".to_string()),
        Token::If,
        Token::Lambda(Integer::from_u64(94)),
        Token::Variable(Integer::from_u64(93)),
    ];
    for token in tokens {
        let run = token.to_string().unwrap();
        assert_eq!(Tokenizer::new(&run).tokenize(), Ok(vec![token]));
    }
}

#[test]
fn a_failed_tokenize_reads_nothing() {
    let mut tokenizer = Tokenizer::new("T I\n F");
    assert_eq!(tokenizer.tokenize(), Err(Error::Alphabet));
    assert_eq!(tokenizer.tokenize_boolean(), Ok(Token::Boolean(true)));
    assert_eq!(tokenizer.tokenize(), Err(Error::Alphabet));
}
