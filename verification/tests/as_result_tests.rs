use nlx_replay::as_result::AsResult;
use std::error::Error;

#[test]
fn main() {
    let a = ();
    let b: Result<(), String> = Ok(());
    let c: Box<Result<(), String>> = Box::new(Ok(()));
    let d: Result<(), Box<dyn Error>> = Ok(());
    let e: Result<(), Box<dyn Error>> = Err(Box::new(std::io::Error::new(
        std::io::ErrorKind::Other,
        "oh no!",
    )));

    a.as_result().unwrap();
    b.as_result().unwrap();
    c.as_result().unwrap();
    d.as_result().unwrap();
    assert!(e.as_result().is_err());
}
