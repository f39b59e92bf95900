use merlin::Transcript;
use sumcheck_arguments::fiatshamir::ProtocolTranscript;
use sumcheck_arguments::field::Scalar;

fn squeeze_by_hand(transcript: &mut Transcript, label: &'static [u8]) -> Scalar {
    let mut buf = [0u8; 64];
    transcript.challenge_bytes(label, &mut buf);
    Scalar::from_le_bytes_mod_order(&buf)
}

#[test]
fn a_scalar_is_absorbed_as_its_encoding() {
    let x = Scalar::from_u64(0x0102030405060708);
    let mut ours = Transcript::new(b"test_transcript");
    ProtocolTranscript::append_scalar(&mut ours, b"value", &x);
    let mut by_hand = Transcript::new(b"test_transcript");
    by_hand.append_message(b"value", &x.to_bytes());
    assert_eq!(
        ProtocolTranscript::challenge_scalar(&mut ours, b"challenge"),
        squeeze_by_hand(&mut by_hand, b"challenge")
    );
}

#[test]
fn a_message_is_absorbed_as_it_is() {
    let mut ours = Transcript::new(b"test_transcript");
    ProtocolTranscript::append_message(&mut ours, b"note", b"some bytes");
    let mut by_hand = Transcript::new(b"test_transcript");
    by_hand.append_message(b"note", b"some bytes");
    assert_eq!(
        ProtocolTranscript::challenge_scalar(&mut ours, b"challenge"),
        squeeze_by_hand(&mut by_hand, b"challenge")
    );
}

#[test]
fn a_list_is_absorbed_between_markers() {
    let points = vec![Scalar::from_u64(3), Scalar::from_u64(1), Scalar::from_u64(4)];
    let mut ours = Transcript::new(b"test_transcript");
    ours.append_points(b"list", &points);
    let mut by_hand = Transcript::new(b"test_transcript");
    by_hand.append_message(b"list", b"begin_append_points");
    for p in &points {
        by_hand.append_message(b"list", &p.to_bytes());
    }
    by_hand.append_message(b"list", b"end_append_points");
    assert_eq!(
        ours.challenge_scalar(b"challenge"),
        squeeze_by_hand(&mut by_hand, b"challenge")
    );
}

#[test]
fn an_empty_list_is_not_nothing() {
    let mut with_list = Transcript::new(b"test_transcript");
    with_list.append_points(b"list", &[]);
    let mut without = Transcript::new(b"test_transcript");
    assert_ne!(
        with_list.challenge_scalar(b"challenge"),
        without.challenge_scalar(b"challenge")
    );
}

#[test]
fn challenges_are_squeezed_one_by_one() {
    let mut ours = Transcript::new(b"test_transcript");
    let many = ours.challenge_scalars(b"challenge", 3);
    let mut by_hand = Transcript::new(b"test_transcript");
    let expected = vec![
        squeeze_by_hand(&mut by_hand, b"challenge"),
        squeeze_by_hand(&mut by_hand, b"challenge"),
        squeeze_by_hand(&mut by_hand, b"challenge"),
    ];
    assert_eq!(many, expected);
    assert_ne!(many[0], many[1]);
    assert!(ours.challenge_scalars(b"challenge", 0).is_empty());
}

#[test]
fn challenges_depend_on_what_was_absorbed() {
    let mut first = Transcript::new(b"test_transcript");
    let mut second = Transcript::new(b"test_transcript");
    ProtocolTranscript::append_scalar(&mut first, b"value", &Scalar::from_u64(1));
    ProtocolTranscript::append_scalar(&mut second, b"value", &Scalar::from_u64(2));
    assert_ne!(
        first.challenge_scalar(b"challenge"),
        second.challenge_scalar(b"challenge")
    );
}

#[test]
fn challenges_depend_on_the_label() {
    let mut first = Transcript::new(b"test_transcript");
    let mut second = Transcript::new(b"test_transcript");
    assert_ne!(
        first.challenge_scalar(b"one label"),
        second.challenge_scalar(b"another label")
    );
}

#[test]
fn equal_histories_give_equal_challenges() {
    let mut first = Transcript::new(b"test_transcript");
    let mut second = Transcript::new(b"test_transcript");
    for t in [&mut first, &mut second] {
        ProtocolTranscript::append_scalar(t, b"value", &Scalar::from_u64(5));
        t.append_points(b"list", &[Scalar::from_u64(6), Scalar::from_u64(7)]);
    }
    assert_eq!(
        first.challenge_scalars(b"challenge", 4),
        second.challenge_scalars(b"challenge", 4)
    );
}
