use tagtools::bit::{chans_to_mask, mask_to_chans, mask_to_pair, mask_to_single, BitOps};

#[test]
fn channel_masks() {
    assert_eq!(0b01, chans_to_mask(&vec![1]));
    assert_eq!(0b10, chans_to_mask(&vec![2]));
    assert_eq!(0b11, chans_to_mask(&vec![1, 2]));
    assert_eq!(0x8000, chans_to_mask(&vec![16]));
}

#[test]
fn bijective_channel_masks() {
    // Exhaustively check all u16s
    for pat in u16::MIN..=u16::MAX {
        let chs = mask_to_chans(pat);
        assert!(!chs.contains(&0));
        let pat2 = chans_to_mask(&chs);
        assert_eq!(pat, pat2);
        match pat.count_ones() {
            1 => {
                assert_eq!(Some(chs[0]), mask_to_single(pat));
                assert_eq!(None, mask_to_pair(pat));
            }
            2 => {
                assert_eq!(None, mask_to_single(pat));
                assert_eq!(Some((chs[0], chs[1])), mask_to_pair(pat));
            }
            _ => {
                assert_eq!(None, mask_to_single(pat));
                assert_eq!(None, mask_to_pair(pat));
            }
        }
    }
}

#[test]
fn bit_ops() {
    // Exhaustively check all u8's
    for i in u8::MIN..=u8::MAX {
        for b in 0..8usize {
            let mut x = i;
            let i_set = i | 1 << b;
            let i_clr = i & !(1 << b);

            assert_eq!(i.check(b), i >> b & 1 == 1);
            x.set(b);
            assert_eq!(x, i_set);
            x.clear(b);
            assert_eq!(x, i_clr);
            x.toggle(b);
            assert_eq!(x, i_set);
            x.toggle(b);
            assert_eq!(x, i_clr);
        }
    }
    // Exhaustively check all u16's
    for i in u16::MIN..=u16::MAX {
        for b in 0..16usize {
            let mut x = i;
            let i_set = i | 1 << b;
            let i_clr = i & !(1 << b);

            assert_eq!(i.check(b), i >> b & 1 == 1);
            x.set(b);
            assert_eq!(x, i_set);
            x.clear(b);
            assert_eq!(x, i_clr);
            x.toggle(b);
            assert_eq!(x, i_set);
            x.toggle(b);
            assert_eq!(x, i_clr);
        }
    }
    // Check some interesting u32's
    for &i in [u32::MIN, 1u32, 1337u32, u32::MAX].iter() {
        for b in 0..32usize {
            let mut x = i;
            let i_set = i | 1 << b;
            let i_clr = i & !(1 << b);

            assert_eq!(i.check(b), i >> b & 1 == 1);
            x.set(b);
            assert_eq!(x, i_set);
            x.clear(b);
            assert_eq!(x, i_clr);
            x.toggle(b);
            assert_eq!(x, i_set);
            x.toggle(b);
            assert_eq!(x, i_clr);
        }
    }
    // Check some interesting u64's
    for &i in [u64::MIN, 1u64, 1337u64, u64::MAX].iter() {
        for b in 0..64usize {
            let mut x = i;
            let i_set = i | 1 << b;
            let i_clr = i & !(1 << b);

            assert_eq!(i.check(b), i >> b & 1 == 1);
            x.set(b);
            assert_eq!(x, i_set);
            x.clear(b);
            assert_eq!(x, i_clr);
            x.toggle(b);
            assert_eq!(x, i_set);
            x.toggle(b);
            assert_eq!(x, i_clr);
        }
    }
    // Check some interesting u128's
    for &i in [u128::MIN, 1u128, 1337u128, u128::MAX].iter() {
        for b in 0..128usize {
            let mut x = i;
            let i_set = i | 1 << b;
            let i_clr = i & !(1 << b);

            assert_eq!(i.check(b), i >> b & 1 == 1);
            x.set(b);
            assert_eq!(x, i_set);
            x.clear(b);
            assert_eq!(x, i_clr);
            x.toggle(b);
            assert_eq!(x, i_set);
            x.toggle(b);
            assert_eq!(x, i_clr);
        }
    }
}

#[test]
fn bit_change_forces_value() {
    let mut x: u16 = 0b1010;
    x.change(1, false);
    assert_eq!(x, 0b1000);
    x.change(0, true);
    assert_eq!(x, 0b1001);
    x.change(0, true);
    assert_eq!(x, 0b1001);
}
