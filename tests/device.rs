use dancepad_abi::device::{button_bits, respond, BUTTON_THRESHOLD};
use dancepad_abi::{AdcValues, Command, Response};

#[test]
fn answers_each_command() {
    let mut thresh = [250u16; 4];
    assert_eq!(respond(&Command::GetValues, [1, 2, 3, 4], &mut thresh), Response::Values4([1, 2, 3, 4]));
    assert_eq!(respond(&Command::GetThresh, [1, 2, 3, 4], &mut thresh), Response::Values4([250; 4]));
    assert_eq!(respond(&Command::SetThresh4([9, 8, 7, 6]), [1, 2, 3, 4], &mut thresh), Response::Ack);
    assert_eq!(thresh, [9, 8, 7, 6]);
    assert_eq!(respond(&Command::GetThresh, [0; 4], &mut thresh), Response::Values4([9, 8, 7, 6]));
}

#[test]
fn buttons_follow_the_threshold() {
    assert_eq!(BUTTON_THRESHOLD, 512);
    assert_eq!(button_bits(&AdcValues([600, 100, 512, 511])), 0b0101);
    assert_eq!(button_bits(&AdcValues([0u16; 4])), 0);
    assert_eq!(button_bits(&AdcValues([1000u16; 8])), 0xff);
    assert_eq!(button_bits(&AdcValues([])), 0);
}

#[test]
fn readings_default_and_convert() {
    let v = AdcValues::<4>::default();
    assert_eq!(v, AdcValues([0; 4]));
    let w: AdcValues<4> = [1, 2, 3, 4].into();
    let back: [u16; 4] = w.into();
    assert_eq!(back, [1, 2, 3, 4]);
    assert_eq!(w[2], 3);
    assert_eq!(w.as_array(), &[1, 2, 3, 4]);
}
