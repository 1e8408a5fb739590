use cardmatch::card::{Card, CardError, CasualCard, Rank, Suit};
use cardmatch::zfinder::JOKER;

fn generate_all_cards() -> Vec<String> {
    let mut result = vec![];
    for suit in ["CLUBS", "DIAMONDS", "HEARTS", "SPADES"] {
        for rank in [
            "ACE", "2", "3", "4", "5", "6", "7", "8", "9", "10", "JACK", "QUEEN", "KING",
        ] {
            result.push(format!("{}#{}", suit, rank));
        }
    }
    result.push("JOKER".to_string());
    result
}

#[test]
fn correct_parsing() {
    assert_eq!(
        CasualCard::from_string("CLUBS#ACE"),
        Ok(CasualCard {
            suit: Suit::Clubs,
            rank: Rank::Ace,
        })
    );
    assert_eq!(
        CasualCard::from_string("HEARTS#JACK"),
        Ok(CasualCard {
            suit: Suit::Hearts,
            rank: Rank::Jack,
        })
    );
    assert_eq!(
        CasualCard::from_string("SPADES#9"),
        Ok(CasualCard {
            suit: Suit::Spades,
            rank: Rank::Nine,
        })
    );
    assert_eq!(
        CasualCard::from_string("DIAMONDS#QUEEN"),
        Ok(CasualCard {
            suit: Suit::Diamonds,
            rank: Rank::Queen,
        })
    );
}

#[test]
fn all_possible_cards_are_parsed() {
    for card in generate_all_cards() {
        assert!(Card::from_string(&card).is_ok());
    }
}

#[test]
fn not_enough_tokens() {
    assert_eq!(CasualCard::from_string("CLUBS"), Err(CardError::MalformedCard));
}

#[test]
fn no_delimiter() {
    assert_eq!(CasualCard::from_string("CLUBS11"), Err(CardError::MalformedCard));
}

#[test]
fn wrong_suit() {
    assert_eq!(CasualCard::from_string("CLUUBS#11"), Err(CardError::MalformedCard));
}

#[test]
fn wrong_rank() {
    assert_eq!(CasualCard::from_string("CLUBS#QUUEEN"), Err(CardError::MalformedCard));
}

#[test]
fn correct_to_byte() {
    let card = CasualCard {
        suit: Suit::Spades,
        rank: Rank::Five,
    };
    assert_eq!(card.as_byte(), 0b00_11_0101);

    let card = CasualCard {
        suit: Suit::Hearts,
        rank: Rank::King,
    };
    assert_eq!(card.as_byte(), 0b00_10_1101);

    let card = Card::Joker;
    assert_eq!(card.as_byte(), JOKER);
}

#[test]
fn extra_delimiters_are_refused() {
    assert_eq!(CasualCard::from_string("CLUBS#ACE#ACE"), Err(CardError::MalformedCard));
    assert_eq!(Card::from_string("CLUBS##ACE"), Err(CardError::MalformedCard));
    assert_eq!(Card::from_string("#"), Err(CardError::MalformedCard));
    assert_eq!(Card::from_string(""), Err(CardError::MalformedCard));
}

#[test]
fn lowercase_and_padded_text_is_refused() {
    assert_eq!(Card::from_string("joker"), Err(CardError::MalformedCard));
    assert_eq!(Card::from_string("clubs#ace"), Err(CardError::MalformedCard));
    assert_eq!(Card::from_string("CLUBS #ACE"), Err(CardError::MalformedCard));
    assert_eq!(Card::from_string("CLUBS#1"), Err(CardError::MalformedCard));
    assert_eq!(Card::from_string("CLUBS#11"), Err(CardError::MalformedCard));
    assert_eq!(Card::from_string("JOKER#ACE"), Err(CardError::MalformedCard));
}

#[test]
fn joker_and_casual_parse() {
    assert_eq!(Card::from_string("JOKER"), Ok(Card::Joker));
    assert_eq!(
        Card::from_string("SPADES#10"),
        Ok(Card::Casual(CasualCard {
            suit: Suit::Spades,
            rank: Rank::Ten,
        }))
    );
}

#[test]
fn suits_and_ranks_parse_alone() {
    assert_eq!(Suit::from_string("DIAMONDS"), Ok(Suit::Diamonds));
    assert_eq!(Suit::from_string("JOKER"), Err(CardError::MalformedCard));
    assert_eq!(Rank::from_string("KING"), Ok(Rank::King));
    assert_eq!(Rank::from_string("2"), Ok(Rank::Two));
    assert_eq!(Rank::from_string("10"), Ok(Rank::Ten));
    assert_eq!(Rank::from_string("11"), Err(CardError::MalformedCard));
    assert_eq!(Rank::from_string(""), Err(CardError::MalformedCard));
}

#[test]
fn spade_five_and_heart_king_bytes_from_text() {
    assert_eq!(Card::from_string("SPADES#5").unwrap().as_byte(), 0b0011_0101);
    assert_eq!(Card::from_string("HEARTS#KING").unwrap().as_byte(), 0b0010_1101);
    assert_eq!(Card::from_string("JOKER").unwrap().as_byte(), 0x40);
    assert_eq!(Card::from_string("CLUBS#ACE").unwrap().as_byte(), 0x01);
    assert_eq!(Card::from_string("SPADES#KING").unwrap().as_byte(), 0x3D);
}

#[test]
fn encoding_is_injective_and_avoids_reserved_bytes() {
    let mut seen: Vec<u8> = Vec::new();
    for text in generate_all_cards() {
        let card = Card::from_string(&text).unwrap();
        let byte = card.as_byte();
        assert!(!seen.contains(&byte));
        assert_ne!(byte, 0x00);
        assert_ne!(byte, 0xFF);
        if card != Card::Joker {
            assert_ne!(byte, JOKER);
        }
        seen.push(byte);
    }
    assert_eq!(seen.len(), 53);
}
