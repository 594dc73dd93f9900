use vstd::prelude::*;

verus! {

/// The decimal digits of a number, without leading zeros.
pub open spec fn decimal(n: nat) -> Seq<char>
    decreases n,
{
    if n < 10 {
        seq![(48 + n) as char]
    } else {
        decimal(n / 10).push((48 + n % 10) as char)
    }
}

/// Appends the decimal digits of `n`.
pub fn push_decimal(n: u32, text: &mut String)
    ensures
        final(text)@ == old(text)@ + decimal(n as nat),
    decreases n,
{
    if n >= 10 {
        push_decimal(n / 10, text);
    }
    let d: u8 = (n % 10) as u8;
    text.push((48 + d) as char);
    proof {
        if n >= 10 {
            assert((old(text)@ + decimal((n / 10) as nat)).push((48 + d) as char) =~= old(text)@
                + decimal(n as nat));
        } else {
            assert(old(text)@.push((48 + d) as char) =~= old(text)@ + decimal(n as nat));
        }
    }
}

/// What the file `debian-binary` of an unpacked archive holds: the two
/// parts of the format version with a dot between them, and a line end.
pub open spec fn version_line(major: nat, minor: nat) -> Seq<char> {
    decimal(major) + seq!['.'] + decimal(minor) + seq!['\n']
}

/// The contents of the file `debian-binary` for a format version.
pub fn debian_binary(major: u32, minor: u32) -> (text: String)
    ensures
        text@ == version_line(major as nat, minor as nat),
{
    let mut text = String::new();
    push_decimal(major, &mut text);
    text.push('.');
    push_decimal(minor, &mut text);
    text.push('\n');
    assert(text@ =~= version_line(major as nat, minor as nat));
    text
}

} // verus!
