use vstd::prelude::*;

verus! {

/// Appends one character to a string.
///
/// Trusted: wraps `String::push` of std, which appends the character at the
/// end and leaves the rest unchanged.
#[verifier::external_body]
pub(crate) fn push_char(s: &mut String, c: char)
    ensures
        final(s)@ == old(s)@.push(c),
{
    s.push(c);
}

/// The decimal digits of `n`, most significant first.
pub open spec fn digit_values(n: nat) -> Seq<nat>
    decreases n,
{
    if n < 10 {
        seq![n]
    } else {
        digit_values(n / 10).push(n % 10)
    }
}

/// Each digit value replaced by the character at that position of `chars`.
pub open spec fn encode_digits(n: nat, chars: Seq<char>) -> Seq<char> {
    digit_values(n).map_values(|d: nat| chars[d as int])
}

pub open spec fn ascii_digits() -> Seq<char> {
    seq!['0', '1', '2', '3', '4', '5', '6', '7', '8', '9']
}

/// The decimal representation of `n`.
pub open spec fn decimal(n: nat) -> Seq<char> {
    encode_digits(n, ascii_digits())
}

proof fn lemma_digit_values_bound(n: nat)
    ensures
        forall|i: int| 0 <= i < digit_values(n).len() ==> #[trigger] digit_values(n)[i] < 10,
        digit_values(n).len() >= 1,
    decreases n,
{
    if n >= 10 {
        lemma_digit_values_bound(n / 10);
    }
}

/// Appends the digits of `n`, each written with the character at its value
/// in `chars`.
pub fn push_encoded(s: &mut String, n: u64, chars: &[char; 10])
    ensures
        final(s)@ == old(s)@ + encode_digits(n as nat, chars@),
{
    let mut ds: Vec<u8> = Vec::new();
    let mut m = n;
    // digits collected least significant first
    while m >= 10
        invariant
            digit_values(n as nat) == digit_values(m as nat) + ds@.reverse().map_values(|d: u8| d as nat),
            forall|i: int| 0 <= i < ds.len() ==> #[trigger] ds@[i] < 10,
        decreases m,
    {
        let d = (m % 10) as u8;
        proof {
            assert(digit_values(m as nat) == digit_values((m / 10) as nat).push((m % 10) as nat));
            assert(ds@.push(d).reverse() =~= seq![d] + ds@.reverse());
            assert(seq![d].map_values(|x: u8| x as nat) =~= seq![(m % 10) as nat]);
            assert((seq![d] + ds@.reverse()).map_values(|x: u8| x as nat) =~= seq![(m % 10) as nat]
                + ds@.reverse().map_values(|x: u8| x as nat));
            assert(digit_values((m / 10) as nat).push((m % 10) as nat) + ds@.reverse().map_values(|x: u8| x as nat)
                =~= digit_values((m / 10) as nat) + (seq![(m % 10) as nat] + ds@.reverse().map_values(|x: u8| x as nat)));
        }
        ds.push(d);
        m = m / 10;
    }
    ds.push(m as u8);
    proof {
        assert(digit_values(m as nat) == seq![m as nat]);
        assert(ds@.reverse() =~= seq![m as u8] + ds@.drop_last().reverse());
        assert(digit_values(n as nat) =~= ds@.reverse().map_values(|d: u8| d as nat));
    }
    let ghost s0 = s@;
    let mut k: usize = ds.len();
    while k > 0
        invariant
            k <= ds.len(),
            forall|i: int| 0 <= i < ds.len() ==> #[trigger] ds@[i] < 10,
            digit_values(n as nat) =~= ds@.reverse().map_values(|d: u8| d as nat),
            s@ == s0 + ds@.reverse().take((ds.len() - k) as int).map_values(|d: u8| chars@[d as int]),
        decreases k,
    {
        k = k - 1;
        let d = ds[k];
        push_char(s, chars[d as usize]);
        proof {
            let r = ds@.reverse();
            assert(r[(ds.len() - k - 1) as int] == ds@[k as int]);
            assert(r.take((ds.len() - k) as int) =~= r.take((ds.len() - k - 1) as int).push(ds@[k as int]));
            assert(r.take((ds.len() - k) as int).map_values(|d: u8| chars@[d as int]) =~= r.take(
                (ds.len() - k - 1) as int,
            ).map_values(|d: u8| chars@[d as int]).push(chars@[d as int]));
        }
    }
    proof {
        let r = ds@.reverse();
        assert(r.take(ds.len() as int) =~= r);
        assert(r.map_values(|d: u8| chars@[d as int]) =~= encode_digits(n as nat, chars@));
    }
}


/// Whether a character is lowercase, as Unicode's `Lowercase` property says.
pub uninterp spec fn lowercase(c: char) -> bool;

/// Whether a character is uppercase, as Unicode's `Uppercase` property says.
pub uninterp spec fn uppercase(c: char) -> bool;

/// The characters that Unicode's full uppercase mapping gives for `c`.
pub uninterp spec fn upper_chars(c: char) -> Seq<char>;

/// The characters that Unicode's full lowercase mapping gives for `c`.
pub uninterp spec fn lower_chars(c: char) -> Seq<char>;

/// Trusted: wraps `char::is_lowercase` of std, which tells whether the
/// character has the Unicode `Lowercase` property; the result depends on the
/// character alone, and is named by `lowercase`.
#[verifier::external_body]
pub(crate) fn is_lowercase(c: char) -> (r: bool)
    ensures
        r == lowercase(c),
{
    c.is_lowercase()
}

/// Trusted: wraps `char::is_uppercase` of std, which tells whether the
/// character has the Unicode `Uppercase` property; the result depends on the
/// character alone, and is named by `uppercase`.
#[verifier::external_body]
pub(crate) fn is_uppercase(c: char) -> (r: bool)
    ensures
        r == uppercase(c),
{
    c.is_uppercase()
}

/// Trusted: wraps `char::to_uppercase` of std, whose iterator yields the
/// characters of the Unicode uppercase mapping of `c` (one or more); they
/// depend on the character alone, and are named by `upper_chars`.
#[verifier::external_body]
pub(crate) fn to_uppercase(c: char) -> (r: Vec<char>)
    ensures
        r@ == upper_chars(c),
{
    c.to_uppercase().collect()
}

/// Trusted: wraps `char::to_lowercase` of std, whose iterator yields the
/// characters of the Unicode lowercase mapping of `c` (one or more); they
/// depend on the character alone, and are named by `lower_chars`.
#[verifier::external_body]
pub(crate) fn to_lowercase(c: char) -> (r: Vec<char>)
    ensures
        r@ == lower_chars(c),
{
    c.to_lowercase().collect()
}

} // verus!
