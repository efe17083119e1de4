use mercy::serde_model::{
    decoded_choice, encoding_distribution, ByteCategorical, ChoiceDecoder, ChoiceEncoder, Choices, Deserializer,
    Error, Model, Result, Serializer,
};

#[test]
fn byte_categorical_restricts_exactly_to_valid_choices() {
    let weights = std::array::from_fn(|choice| choice as u64 + 1);
    let distribution = ByteCategorical::from_weights(weights)
        .unwrap()
        .restricted(Choices::binary())
        .unwrap();
    assert_eq!(distribution.total(), 3);
    assert_eq!(distribution.interval(0), (0, 1));
    assert_eq!(distribution.interval(1), (1, 3));
    assert_eq!(distribution.weight(2), 0);
}

#[test]
fn zero_mass_is_rejected() {
    assert!(matches!(
        ByteCategorical::from_weights([0; 256]),
        Err(Error::ZeroMass { choices }) if choices.len() == 256
    ));
    assert!(matches!(ByteCategorical::binary(0, 0), Err(Error::ZeroMass { .. })));
    let mut weights = [0u64; 256];
    weights[7] = 5;
    let distribution = ByteCategorical::from_weights(weights).unwrap();
    assert!(matches!(
        distribution.restricted(Choices::binary()),
        Err(Error::ZeroMass { choices }) if choices.len() == 2
    ));
}

#[test]
fn uniform_and_binary_have_exact_totals() {
    let uniform = ByteCategorical::uniform();
    assert_eq!(uniform.total(), 256);
    assert_eq!(uniform.interval(255), (255, 256));
    let binary = ByteCategorical::binary(3, 5).unwrap();
    assert_eq!(binary.total(), 8);
    assert_eq!(binary.interval(1), (3, 8));
    assert_eq!(binary.weight(2), 0);
}

#[test]
fn choices_cover_one_to_256_alternatives() {
    assert!(Choices::new(0).is_none());
    assert!(Choices::new(257).is_none());
    let three = Choices::new(3).unwrap();
    assert_eq!(three.len(), 3);
    assert!(!three.is_empty());
    assert!(three.contains(2));
    assert!(!three.contains(3));
    assert_eq!(Choices::byte().len(), 256);
}

#[test]
fn encoder_and_decoder_check_choices_alike() {
    let weights = std::array::from_fn(|choice| if choice == 1 { 0 } else { 1 });
    let prediction = ByteCategorical::from_weights(weights).unwrap();
    let choices = Choices::new(3).unwrap();
    assert!(matches!(
        encoding_distribution(&prediction, choices, 3),
        Err(Error::InvalidChoice { choice: 3, .. })
    ));
    assert!(matches!(
        encoding_distribution(&prediction, choices, 1),
        Err(Error::ZeroProbabilityChoice(1))
    ));
    let restricted = encoding_distribution(&prediction, choices, 2).unwrap();
    assert_eq!(restricted.total(), 2);
    assert!(matches!(decoded_choice(&restricted, choices, 2), Ok(2)));
    assert!(matches!(decoded_choice(&restricted, choices, 1), Err(Error::ZeroProbabilityChoice(1))));
    assert!(matches!(decoded_choice(&restricted, choices, 9), Err(Error::InvalidChoice { choice: 9, .. })));
}

#[test]
fn lengths_are_little_endian() {
    let bytes = mercy::serde_model::le_bytes_u64(0x0102_0304_0506_0708);
    assert_eq!(bytes, [8, 7, 6, 5, 4, 3, 2, 1]);
    assert_eq!(mercy::serde_model::u64_from_le_bytes(bytes), 0x0102_0304_0506_0708);
}

#[derive(Default)]
struct SeenModel {
    seen: Vec<u8>,
}

impl Model<()> for SeenModel {
    type Prediction<'a> = ByteCategorical where Self: 'a;

    fn predict(&self) -> ByteCategorical {
        ByteCategorical::uniform()
    }

    fn observe(&mut self, choice: u8) {
        self.seen.push(choice);
    }
}

#[derive(Default)]
struct Recorder {
    choices: Vec<u8>,
    totals: Vec<u128>,
}

impl ChoiceEncoder for Recorder {
    fn encode(&mut self, choice: u8, distribution: &ByteCategorical) -> Result<()> {
        self.choices.push(choice);
        self.totals.push(distribution.total());
        Ok(())
    }
}

struct Replayer {
    choices: Vec<u8>,
    cursor: usize,
}

impl ChoiceDecoder for Replayer {
    fn decode(&mut self, _distribution: &ByteCategorical) -> Result<u8> {
        let choice = self.choices[self.cursor];
        self.cursor += 1;
        Ok(choice)
    }
}

#[test]
fn serializer_and_deserializer_exchange_the_same_choices() {
    let mut model = SeenModel::default();
    let mut coder = Recorder::default();
    {
        let mut serializer = Serializer::<(), _, _>::new(&mut model, &mut coder);
        serializer.length(300).unwrap();
        serializer.bytes(&[1, 2, 3]).unwrap();
        serializer.decide(Choices::binary(), 1).unwrap();
        assert!(matches!(
            serializer.decide(Choices::binary(), 2),
            Err(Error::InvalidChoice { choice: 2, .. })
        ));
    }
    // 300 = 0x012c as eight little-endian bytes, then the raw bytes, then the flag.
    assert_eq!(coder.choices, vec![0x2c, 0x01, 0, 0, 0, 0, 0, 0, 1, 2, 3, 1]);
    assert_eq!(model.seen, coder.choices);
    // Byte decisions use the full uniform mass; the flag uses its two choices.
    assert_eq!(coder.totals[0], 256);
    assert_eq!(coder.totals[11], 2);

    let mut replay_model = SeenModel::default();
    let mut replayer = Replayer { choices: coder.choices.clone(), cursor: 0 };
    {
        let mut deserializer = Deserializer::<(), _, _>::new(&mut replay_model, &mut replayer);
        assert_eq!(deserializer.length().unwrap(), 300);
        assert_eq!(deserializer.bytes::<3>().unwrap(), [1, 2, 3]);
        assert_eq!(deserializer.decide(Choices::binary()).unwrap(), 1);
    }
    assert_eq!(replayer.cursor, 12);
    assert_eq!(replay_model.seen, model.seen);
}
