//! Version numbers of the engine.
use vstd::prelude::*;
use vstd::string::StringExecFns;

verus! {

/// The character of a decimal digit.
pub open spec fn digit_char(d: nat) -> char {
    if d == 0 {
        '0'
    } else if d == 1 {
        '1'
    } else if d == 2 {
        '2'
    } else if d == 3 {
        '3'
    } else if d == 4 {
        '4'
    } else if d == 5 {
        '5'
    } else if d == 6 {
        '6'
    } else if d == 7 {
        '7'
    } else if d == 8 {
        '8'
    } else {
        '9'
    }
}

/// The decimal digits of `n`, most significant first, without leading zeros.
pub open spec fn decimal(n: nat) -> Seq<char>
    decreases n,
{
    if n < 10 {
        seq![digit_char(n)]
    } else {
        decimal(n / 10).push(digit_char(n % 10))
    }
}

/// `major.minor.patch`, then `-postfix` and `+build_id` where these are not empty.
pub open spec fn version_string(
    major: u32,
    minor: u32,
    patch: u32,
    postfix: Seq<char>,
    build_id: Seq<char>,
) -> Seq<char> {
    let base = decimal(major as nat) + seq!['.'] + decimal(minor as nat) + seq!['.'] + decimal(
        patch as nat,
    );
    let with_postfix = if postfix.len() == 0 {
        base
    } else {
        base + seq!['-'] + postfix
    };
    if build_id.len() == 0 {
        with_postfix
    } else {
        with_postfix + seq!['+'] + build_id
    }
}

/// The version as one integer: `major * 1_000_000 + minor * 1_000 + patch`.
pub open spec fn version_int(major: u32, minor: u32, patch: u32) -> int {
    major * 1_000_000 + minor * 1_000 + patch
}

fn digit_str(d: u32) -> (r: &'static str)
    requires
        d < 10,
    ensures
        r@ == seq![digit_char(d as nat)],
{
    proof {
        reveal_strlit("0");
        reveal_strlit("1");
        reveal_strlit("2");
        reveal_strlit("3");
        reveal_strlit("4");
        reveal_strlit("5");
        reveal_strlit("6");
        reveal_strlit("7");
        reveal_strlit("8");
        reveal_strlit("9");
    }
    if d == 0 {
        "0"
    } else if d == 1 {
        "1"
    } else if d == 2 {
        "2"
    } else if d == 3 {
        "3"
    } else if d == 4 {
        "4"
    } else if d == 5 {
        "5"
    } else if d == 6 {
        "6"
    } else if d == 7 {
        "7"
    } else if d == 8 {
        "8"
    } else {
        "9"
    }
}

fn append_decimal(s: &mut String, n: u32)
    ensures
        final(s)@ == old(s)@ + decimal(n as nat),
    decreases n,
{
    if n >= 10 {
        append_decimal(s, n / 10);
    }
    let d = digit_str(n % 10);
    s.append(d);
    proof {
        if n >= 10 {
            assert(decimal(n as nat) == decimal((n / 10) as nat).push(digit_char((n % 10) as nat)));
        }
        assert(final(s)@ =~= old(s)@ + decimal(n as nat));
    }
}


/// Formats a version as `major.minor.patch[-postfix][+build_id]`.
pub fn get_version_string(
    major: u32,
    minor: u32,
    patch: u32,
    postfix: &str,
    build_id: &str,
) -> (v: String)
    ensures
        v@ == version_string(major, minor, patch, postfix@, build_id@),
{
    proof {
        reveal_strlit(".");
        reveal_strlit("-");
        reveal_strlit("+");
    }
    let mut v = String::new();
    append_decimal(&mut v, major);
    v.append(".");
    append_decimal(&mut v, minor);
    v.append(".");
    append_decimal(&mut v, patch);
    let ghost base = v@;
    assert(base =~= decimal(major as nat) + seq!['.'] + decimal(minor as nat) + seq!['.']
        + decimal(patch as nat));
    if !postfix.is_empty() {
        v.append("-");
        v.append(postfix);
    }
    let ghost with_postfix = v@;
    assert(with_postfix =~= if postfix@.len() == 0 {
        base
    } else {
        base + seq!['-'] + postfix@
    });
    if !build_id.is_empty() {
        v.append("+");
        v.append(build_id);
    }
    assert(v@ =~= version_string(major, minor, patch, postfix@, build_id@));
    v
}

/// The version as one integer, `major * 1_000_000 + minor * 1_000 + patch`.
pub fn get_version_int(major: u32, minor: u32, patch: u32) -> (r: u32)
    requires
        version_int(major, minor, patch) <= u32::MAX,
    ensures
        r == version_int(major, minor, patch),
{
    major * 1_000_000 + minor * 1_000 + patch
}

} // verus!
