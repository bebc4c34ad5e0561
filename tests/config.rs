use radix64::{Config, Std, StdNoPad};

#[test]
fn it_works() {
    assert_eq!(Std.encoded_output_len(1), 4);
    assert_eq!(Std.encoded_output_len(2), 4);
    assert_eq!(Std.encoded_output_len(3), 4);
    assert_eq!(Std.encoded_output_len(4), 8);
    assert_eq!(Std.encoded_output_len(5), 8);

    assert_eq!(StdNoPad.encoded_output_len(1), 2);
    assert_eq!(StdNoPad.encoded_output_len(2), 3);
    assert_eq!(StdNoPad.encoded_output_len(3), 4);
    assert_eq!(StdNoPad.encoded_output_len(4), 6);
    assert_eq!(StdNoPad.encoded_output_len(5), 7);
}
