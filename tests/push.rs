use nouveau::push::{Error, Push, PushMethod, PushMethodType, PushType, Subchannel};

fn method(subchannel: Subchannel, addr: u16, push_type: PushType) -> PushMethod {
    PushMethod {
        subchannel,
        method_type: PushMethodType::Method(addr, 0),
        push_type,
    }
}

fn contents(p: &mut Push) -> Vec<u32> {
    let mut out = vec![0u32; p.dw_count()];
    p.flush(&mut out);
    out
}

#[test]
fn new_buffer_is_empty() {
    let p = Push::new();
    assert_eq!(p.dw_count(), 0);
}

#[test]
fn header_and_data_count() {
    let mut p = Push::new();
    p.push_method(method(Subchannel::Nv9097, 0x0100, PushType::NInc)).unwrap();
    assert_eq!(p.dw_count(), 1);
    p.push_inline_data(7).unwrap();
    p.push_inline_data(8).unwrap();
    assert_eq!(contents(&mut p), vec![0x20020040, 7, 8]);
    assert_eq!(p.dw_count(), 0);
}

#[test]
fn header_kinds_and_subchannels() {
    let mut p = Push::new();
    p.push_method(method(Subchannel::NvC3C0, 0x0200, PushType::OneInc)).unwrap();
    p.push_inline_data(1).unwrap();
    p.push_method(method(Subchannel::Nv90B5, 0x0300, PushType::ZeroInc)).unwrap();
    p.push_inline_data(2).unwrap();
    p.push_method(method(Subchannel::Nv902D, 0x0004, PushType::Immd(0x1fff))).unwrap();
    assert_eq!(
        contents(&mut p),
        vec![0xa0012080, 1, 0x600180c0, 2, 0x9fff6001]
    );
}

#[test]
fn subchannel_numbers() {
    assert_eq!(u32::from(Subchannel::NvB197), 0);
    assert_eq!(u32::from(Subchannel::NvA0C0), 1);
    assert_eq!(u32::from(Subchannel::Nv9039), 2);
    assert_eq!(u32::from(Subchannel::Nv902D), 3);
    assert_eq!(u32::from(Subchannel::NvC1B5), 4);
}

#[test]
fn large_immediate_becomes_data() {
    let mut p = Push::new();
    p.push_method(method(Subchannel::Nv9097, 0x0100, PushType::Immd(0x2000))).unwrap();
    assert_eq!(contents(&mut p), vec![0x20010040, 0x2000]);
}

#[test]
fn empty_method_cannot_be_followed() {
    let mut p = Push::new();
    p.push_method(method(Subchannel::Nv9097, 0x0100, PushType::NInc)).unwrap();
    p.push_inline_data(1).unwrap();
    p.push_method(method(Subchannel::Nv9097, 0x0200, PushType::NInc)).unwrap();
    let r = p.push_method(method(Subchannel::Nv9097, 0x0300, PushType::NInc));
    assert_eq!(r, Err(Error::UnterminatedMethod));
    assert_eq!(p.dw_count(), 3);
}

#[test]
fn immediate_may_be_followed() {
    let mut p = Push::new();
    p.push_method(method(Subchannel::Nv9097, 0x0100, PushType::NInc)).unwrap();
    p.push_inline_data(1).unwrap();
    p.push_method(method(Subchannel::Nv9097, 0x0200, PushType::Immd(3))).unwrap();
    assert!(p.push_method(method(Subchannel::Nv9097, 0x0300, PushType::NInc)).is_ok());
}

#[test]
fn count_limits() {
    let mut p = Push::new();
    p.push_method(method(Subchannel::Nv9097, 0x0100, PushType::NInc)).unwrap();
    assert_eq!(p.update_size(0x2000), Err(Error::CountExceeded));
    let data = vec![5u32; 0x1fff];
    p.push_inline_array(&data).unwrap();
    assert_eq!(p.dw_count(), 0x2000);
    assert_eq!(p.push_inline_data(6), Err(Error::Overflow));
    assert_eq!(p.push_inline_array(&[1, 2]), Err(Error::Overflow));
    assert_eq!(p.dw_count(), 0x2000);
    let out = contents(&mut p);
    assert_eq!(out[0], 0x3fff0040);
}

#[test]
fn inline_array_appends() {
    let mut p = Push::new();
    p.push_method(method(Subchannel::Nv9097, 0x0100, PushType::NInc)).unwrap();
    p.push_inline_array(&[1, 2, 3]).unwrap();
    assert_eq!(contents(&mut p), vec![0x20030040, 1, 2, 3]);
}

#[test]
fn values_follow_the_method_address() {
    let mut p = Push::new();
    p.push_method(method(Subchannel::Nv9097, 0x0100, PushType::NInc)).unwrap();
    p.push_value(PushMethodType::Method(0x0100, 11)).unwrap();
    p.push_value(PushMethodType::ArrayMthd(0x0104, 12)).unwrap();
    p.push_method(method(Subchannel::Nv9097, 0x0200, PushType::ZeroInc)).unwrap();
    p.push_value(PushMethodType::Method(0x0200, 13)).unwrap();
    p.push_value(PushMethodType::Method(0x0200, 14)).unwrap();
    p.push_method(method(Subchannel::Nv9097, 0x0300, PushType::OneInc)).unwrap();
    p.push_value(PushMethodType::Method(0x0300, 15)).unwrap();
    p.push_value(PushMethodType::Method(0x0304, 16)).unwrap();
    p.push_value(PushMethodType::Method(0x0304, 17)).unwrap();
    assert_eq!(
        contents(&mut p),
        vec![0x20020040, 11, 12, 0x60020080, 13, 14, 0xa00300c0, 15, 16, 17]
    );
}

#[test]
fn raw_data_is_appended() {
    let mut p = Push::new();
    p.push_raw(&[9, 8, 7]);
    assert_eq!(p.dw_count(), 3);
    p.push_method(method(Subchannel::Nv9097, 0x0100, PushType::NInc)).unwrap();
    p.push_inline_data(1).unwrap();
    assert_eq!(contents(&mut p), vec![9, 8, 7, 0x20010040, 1]);
}

#[test]
fn error_messages() {
    assert_eq!(Error::Overflow.message(), "overflowed the current dword");
    assert_eq!(Error::CountExceeded.message(), "exceeded the maximum dword count");
    assert_eq!(
        Error::UnterminatedMethod.message(),
        "the current method is empty and cannot be issued"
    );
    assert_eq!(Push::MAX_COUNT, 0x1fff);
}
