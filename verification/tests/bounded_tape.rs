use turing_codegen::turing_tape::TuringTape;

#[test]
fn test_initialization() {
    let tape = TuringTape::new(5);
    assert_eq!(tape.size_bytes, 5);
    assert_eq!(tape.tape, vec![0; 5]);
}

#[test]
fn turing_tape_test_set_unset_read() {
    let mut tape = TuringTape::new(4);
    tape.set(7).unwrap();
    tape.set(13).unwrap();
    tape.set(19).unwrap();

    for i in 0..=31 {
        if (i == 7) || (i == 13) || (i == 19) {
            assert!(tape.read(i).unwrap());
        } else {
            assert!(!tape.read(i).unwrap());
        }
    }

    tape.unset(3).unwrap();
    assert!(!tape.read(3).unwrap());
}

#[test]
fn test_out_of_bounds() {
    let mut tape = TuringTape::new(4);

    assert!(tape.read(31).is_ok());
    let read_result = tape.read(32);
    assert!(read_result.is_err());
    assert_eq!(
        read_result.unwrap_err().message(),
        "Bit index '32' out of range for '4' bytes"
    );

    assert!(tape.set(31).is_ok());
    let set_result = tape.set(37);
    assert!(set_result.is_err());
    assert_eq!(
        set_result.unwrap_err().message(),
        "Bit index '37' out of range for '4' bytes"
    );

    assert!(tape.set(31).is_ok());
    let unset_result = tape.unset(41);
    assert!(unset_result.is_err());
    assert_eq!(
        unset_result.unwrap_err().message(),
        "Bit index '41' out of range for '4' bytes"
    );
}
