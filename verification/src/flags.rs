//! Names for the device's error flags.
//!
//! Bit `b` of the flags word read from the device names one error condition;
//! unknown bits get a generic name. The controller logs the names and
//! continues: error flags are observable but never fatal.

use vstd::prelude::*;

verus! {

/// The name of the error condition behind bit `b` of the flags word.
pub open spec fn flag_name(b: int) -> Seq<char> {
    if b == 0 {
        "DataOverflow"@
    } else if b == 1 {
        "NegFifoOverflow"@
    } else if b == 2 {
        "PosFifoOverflow"@
    } else if b == 3 {
        "DoubleError"@
    } else if b == 4 {
        "InputFifoOverflow"@
    } else if b == 5 {
        "10MHzHardError"@
    } else if b == 6 {
        "10MHzSoftError"@
    } else if b == 7 {
        "OutFifoOverflow"@
    } else if b == 8 {
        "OutDoublePulse"@
    } else if b == 9 {
        "OutTooLate"@
    } else if b == 28 {
        "OutOfSequence"@
    } else {
        "UnknownFlag"@ + flag_digits(b)
    }
}

/// The decimal digits of an unknown flag's bit index, which lies in `0..32`.
pub open spec fn flag_digits(b: int) -> Seq<char> {
    if b < 10 {
        seq![digit_char(b)]
    } else {
        seq![digit_char(b / 10), digit_char(b % 10)]
    }
}

/// One decimal digit as a character.
pub open spec fn digit_char(d: int) -> char {
    if d == 0 {
        '0'
    } else if d == 1 {
        '1'
    } else if d == 2 {
        '2'
    } else if d == 3 {
        '3'
    } else if d == 4 {
        '4'
    } else if d == 5 {
        '5'
    } else if d == 6 {
        '6'
    } else if d == 7 {
        '7'
    } else if d == 8 {
        '8'
    } else {
        '9'
    }
}

/// The names of the error flags set in `flags` at bit positions `b..32`, in
/// ascending bit order.
pub open spec fn error_names_from(flags: u32, b: int) -> Seq<Seq<char>>
    decreases 32 - b,
{
    if b < 0 || b >= 32 {
        Seq::empty()
    } else if flags >> (b as u32) & 1 == 1 {
        seq![flag_name(b)] + error_names_from(flags, b + 1)
    } else {
        error_names_from(flags, b + 1)
    }
}

/// The name behind one bit of the flags word.
fn flag_name_exec(b: u32) -> (r: String)
    requires
        b < 32,
    ensures
        r@ == flag_name(b as int),
{
    match b {
        0 => "DataOverflow".to_owned(),
        1 => "NegFifoOverflow".to_owned(),
        2 => "PosFifoOverflow".to_owned(),
        3 => "DoubleError".to_owned(),
        4 => "InputFifoOverflow".to_owned(),
        5 => "10MHzHardError".to_owned(),
        6 => "10MHzSoftError".to_owned(),
        7 => "OutFifoOverflow".to_owned(),
        8 => "OutDoublePulse".to_owned(),
        9 => "OutTooLate".to_owned(),
        28 => "OutOfSequence".to_owned(),
        10 => {
            proof {
                reveal_strlit("UnknownFlag10");
                reveal_strlit("UnknownFlag");
                assert("UnknownFlag10"@ =~= "UnknownFlag"@ + flag_digits(10));
            }
            "UnknownFlag10".to_owned()
        },
        11 => {
            proof {
                reveal_strlit("UnknownFlag11");
                reveal_strlit("UnknownFlag");
                assert("UnknownFlag11"@ =~= "UnknownFlag"@ + flag_digits(11));
            }
            "UnknownFlag11".to_owned()
        },
        12 => {
            proof {
                reveal_strlit("UnknownFlag12");
                reveal_strlit("UnknownFlag");
                assert("UnknownFlag12"@ =~= "UnknownFlag"@ + flag_digits(12));
            }
            "UnknownFlag12".to_owned()
        },
        13 => {
            proof {
                reveal_strlit("UnknownFlag13");
                reveal_strlit("UnknownFlag");
                assert("UnknownFlag13"@ =~= "UnknownFlag"@ + flag_digits(13));
            }
            "UnknownFlag13".to_owned()
        },
        14 => {
            proof {
                reveal_strlit("UnknownFlag14");
                reveal_strlit("UnknownFlag");
                assert("UnknownFlag14"@ =~= "UnknownFlag"@ + flag_digits(14));
            }
            "UnknownFlag14".to_owned()
        },
        15 => {
            proof {
                reveal_strlit("UnknownFlag15");
                reveal_strlit("UnknownFlag");
                assert("UnknownFlag15"@ =~= "UnknownFlag"@ + flag_digits(15));
            }
            "UnknownFlag15".to_owned()
        },
        16 => {
            proof {
                reveal_strlit("UnknownFlag16");
                reveal_strlit("UnknownFlag");
                assert("UnknownFlag16"@ =~= "UnknownFlag"@ + flag_digits(16));
            }
            "UnknownFlag16".to_owned()
        },
        17 => {
            proof {
                reveal_strlit("UnknownFlag17");
                reveal_strlit("UnknownFlag");
                assert("UnknownFlag17"@ =~= "UnknownFlag"@ + flag_digits(17));
            }
            "UnknownFlag17".to_owned()
        },
        18 => {
            proof {
                reveal_strlit("UnknownFlag18");
                reveal_strlit("UnknownFlag");
                assert("UnknownFlag18"@ =~= "UnknownFlag"@ + flag_digits(18));
            }
            "UnknownFlag18".to_owned()
        },
        19 => {
            proof {
                reveal_strlit("UnknownFlag19");
                reveal_strlit("UnknownFlag");
                assert("UnknownFlag19"@ =~= "UnknownFlag"@ + flag_digits(19));
            }
            "UnknownFlag19".to_owned()
        },
        20 => {
            proof {
                reveal_strlit("UnknownFlag20");
                reveal_strlit("UnknownFlag");
                assert("UnknownFlag20"@ =~= "UnknownFlag"@ + flag_digits(20));
            }
            "UnknownFlag20".to_owned()
        },
        21 => {
            proof {
                reveal_strlit("UnknownFlag21");
                reveal_strlit("UnknownFlag");
                assert("UnknownFlag21"@ =~= "UnknownFlag"@ + flag_digits(21));
            }
            "UnknownFlag21".to_owned()
        },
        22 => {
            proof {
                reveal_strlit("UnknownFlag22");
                reveal_strlit("UnknownFlag");
                assert("UnknownFlag22"@ =~= "UnknownFlag"@ + flag_digits(22));
            }
            "UnknownFlag22".to_owned()
        },
        23 => {
            proof {
                reveal_strlit("UnknownFlag23");
                reveal_strlit("UnknownFlag");
                assert("UnknownFlag23"@ =~= "UnknownFlag"@ + flag_digits(23));
            }
            "UnknownFlag23".to_owned()
        },
        24 => {
            proof {
                reveal_strlit("UnknownFlag24");
                reveal_strlit("UnknownFlag");
                assert("UnknownFlag24"@ =~= "UnknownFlag"@ + flag_digits(24));
            }
            "UnknownFlag24".to_owned()
        },
        25 => {
            proof {
                reveal_strlit("UnknownFlag25");
                reveal_strlit("UnknownFlag");
                assert("UnknownFlag25"@ =~= "UnknownFlag"@ + flag_digits(25));
            }
            "UnknownFlag25".to_owned()
        },
        26 => {
            proof {
                reveal_strlit("UnknownFlag26");
                reveal_strlit("UnknownFlag");
                assert("UnknownFlag26"@ =~= "UnknownFlag"@ + flag_digits(26));
            }
            "UnknownFlag26".to_owned()
        },
        27 => {
            proof {
                reveal_strlit("UnknownFlag27");
                reveal_strlit("UnknownFlag");
                assert("UnknownFlag27"@ =~= "UnknownFlag"@ + flag_digits(27));
            }
            "UnknownFlag27".to_owned()
        },
        29 => {
            proof {
                reveal_strlit("UnknownFlag29");
                reveal_strlit("UnknownFlag");
                assert("UnknownFlag29"@ =~= "UnknownFlag"@ + flag_digits(29));
            }
            "UnknownFlag29".to_owned()
        },
        30 => {
            proof {
                reveal_strlit("UnknownFlag30");
                reveal_strlit("UnknownFlag");
                assert("UnknownFlag30"@ =~= "UnknownFlag"@ + flag_digits(30));
            }
            "UnknownFlag30".to_owned()
        },
        _ => {
            proof {
                reveal_strlit("UnknownFlag31");
                reveal_strlit("UnknownFlag");
                assert(b == 31);
                assert("UnknownFlag31"@ =~= "UnknownFlag"@ + flag_digits(31));
            }
            "UnknownFlag31".to_owned()
        },
    }
}

/// The names of the error conditions set in a flags word read from the
/// device, in ascending bit order; each set bit contributes its name once.
pub fn error_text(flags: u32) -> (r: Vec<String>)
    ensures
        r@.len() == error_names_from(flags, 0).len(),
        forall|t: int|
            0 <= t < r@.len() ==> (#[trigger] r@[t])@ == error_names_from(flags, 0)[t],
{
    let mut r: Vec<String> = Vec::new();
    let ghost target = error_names_from(flags, 0);
    let mut b: u32 = 0;
    while b < 32
        invariant
            0 <= b <= 32,
            target == error_names_from(flags, 0),
            target =~= error_names_from(flags, 0).take(r@.len() as int) + error_names_from(
                flags,
                b as int,
            ),
            r@.len() <= target.len(),
            forall|t: int| 0 <= t < r@.len() ==> (#[trigger] r@[t])@ == target[t],
        decreases 32 - b,
    {
        if flags >> b & 1 == 1 {
            let name = flag_name_exec(b);
            let ghost rlen = r@.len() as int;
            r.push(name);
            proof {
                assert(error_names_from(flags, b as int) == seq![flag_name(b as int)]
                    + error_names_from(flags, b + 1));
                assert(target[rlen] == flag_name(b as int));
                assert(target =~= error_names_from(flags, 0).take(r@.len() as int)
                    + error_names_from(flags, b + 1));
            }
        } else {
            proof {
                assert(error_names_from(flags, b as int) == error_names_from(flags, b + 1));
            }
        }
        b = b + 1;
    }
    proof {
        assert(error_names_from(flags, 32) =~= Seq::<Seq<char>>::empty());
        assert(target =~= error_names_from(flags, 0).take(r@.len() as int));
        assert(r@.len() == target.len());
    }
    r
}

} // verus!
