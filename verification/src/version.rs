use std::cmp::Ordering;
use vstd::prelude::*;
use vstd::string::is_ascii;

verus! {

/// How Debian policy orders two version strings: epoch first, then the
/// upstream part, then the revision, each by alternating runs of non-digits
/// and digits, `~` before everything, the end of the string included.
pub uninterp spec fn version_order(left: Seq<char>, right: Seq<char>) -> Ordering;

/// Calls `deb_version::compare_versions`, which orders two version strings
/// as Debian policy does. The result is a function of the two strings
/// alone, named `version_order`; equal strings compare equal. The crate
/// slices its input by character counts, so strings with characters
/// outside ASCII are kept away from it.
#[verifier::external_body]
fn compare_versions(left: &str, right: &str) -> (order: Ordering)
    requires
        is_ascii(left),
        is_ascii(right),
    ensures
        order == version_order(left@, right@),
        left@ == right@ ==> order == Ordering::Equal,
{
    deb_version::compare_versions(left, right)
}

/// How the two versions compare, if both are plain ASCII; versions with
/// other characters are not compared.
pub fn compare(left: &str, right: &str) -> (order: Option<Ordering>)
    ensures
        order == if is_ascii(left) && is_ascii(right) {
            Some(version_order(left@, right@))
        } else {
            None
        },
        order is Some && left@ == right@ ==> order == Some(Ordering::Equal),
{
    if left.is_ascii() && right.is_ascii() {
        Some(compare_versions(left, right))
    } else {
        None
    }
}

/// Whether an outcome of a comparison is what the operator asks for: `<<`,
/// `<=` hold of a smaller version, `<=`, `=`, `>=` of an equal one, `>=`,
/// `>>` of a larger one. An operator is read by its first character for a
/// strict outcome and by its last for equality.
pub open spec fn meets(order: Ordering, operator: Seq<char>) -> bool {
    match order {
        Ordering::Less => operator.len() > 0 && operator.first() == '<',
        Ordering::Equal => operator.len() > 0 && operator.last() == '=',
        Ordering::Greater => operator.len() > 0 && operator.first() == '>',
    }
}

/// Whether the outcome `order` of a comparison meets `operator`.
pub fn order_satisfies(order: Ordering, operator: &str) -> (holds: bool)
    ensures
        holds == meets(order, operator@),
{
    let n = operator.unicode_len();
    if n == 0 {
        return false;
    }
    match order {
        Ordering::Less => operator.get_char(0) == '<',
        Ordering::Equal => operator.get_char(n - 1) == '=',
        Ordering::Greater => operator.get_char(0) == '>',
    }
}

/// Whether `left operator right` holds of two versions, if both are plain
/// ASCII.
pub fn satisfies(left: &str, operator: &str, right: &str) -> (holds: Option<bool>)
    ensures
        holds == if is_ascii(left) && is_ascii(right) {
            Some(meets(version_order(left@, right@), operator@))
        } else {
            None
        },
{
    match compare(left, right) {
        Some(order) => Some(order_satisfies(order, operator)),
        None => None,
    }
}

} // verus!
