use facewave::cli::fail;

#[test]
fn fail_keeps_message() {
    let e = fail(String::from("could not read face.face"));
    assert_eq!(e.message(), "could not read face.face");
}
