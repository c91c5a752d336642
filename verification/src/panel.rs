//! The command-line argument that starts the Files application as the
//! system's file panel: `--system-file-panel=ENDPOINT:TOKEN:PAYLOAD`, with
//! a decimal endpoint and the token and the request payload in hex.

use vstd::prelude::*;
use vstd::string::StringSliceAdditionalSpecFns;

use vstd::slice::slice_subrange;

use crate::metadata::chars_of;
use crate::path::copy_bytes;
use crate::strings::push_char;
use crate::text::{find_byte, first_index, has_prefix, lemma_first_index, starts_with};

verus! {

/// The value of an ASCII hex digit, either case.
pub open spec fn hex_digit(b: u8) -> Option<u8> {
    if 48 <= b <= 57 {
        Some((b - 48) as u8)
    } else if 97 <= b <= 102 {
        Some((b - 87) as u8)
    } else if 65 <= b <= 70 {
        Some((b - 55) as u8)
    } else {
        None
    }
}

/// The bytes that a hex string of even length spells, two digits a byte,
/// high digit first.
pub open spec fn hex_bytes(s: Seq<u8>) -> Option<Seq<u8>>
    decreases s.len(),
{
    if s.len() == 0 {
        Some(Seq::empty())
    } else if s.len() == 1 {
        None
    } else {
        match (hex_digit(s[0]), hex_digit(s[1]), hex_bytes(s.skip(2))) {
            (Some(h), Some(l), Some(rest)) => Some(seq![(h * 16 + l) as u8] + rest),
            _ => None,
        }
    }
}

fn hex_digit_exec(b: u8) -> (r: Option<u8>)
    ensures
        r == hex_digit(b),
{
    if 48 <= b && b <= 57 {
        Some(b - 48)
    } else if 97 <= b && b <= 102 {
        Some(b - 87)
    } else if 65 <= b && b <= 70 {
        Some(b - 55)
    } else {
        None
    }
}

proof fn lemma_hex_step(s: Seq<u8>, i: int)
    requires
        0 <= i,
        i + 2 <= s.len(),
    ensures
        hex_bytes(s.skip(i)) == match (hex_digit(s[i]), hex_digit(s[i + 1]), hex_bytes(
            s.skip(i + 2),
        )) {
            (Some(h), Some(l), Some(rest)) => Some(seq![(h * 16 + l) as u8] + rest),
            _ => None,
        },
{
    assert(s.skip(i).skip(2) =~= s.skip(i + 2));
    assert(s.skip(i)[0] == s[i]);
    assert(s.skip(i)[1] == s[i + 1]);
}

/// The bytes that the hex string `s` spells.
pub fn decode_hex_bytes(s: &[u8]) -> (r: Option<Vec<u8>>)
    ensures
        match r {
            Some(v) => hex_bytes(s@) == Some(v@),
            None => hex_bytes(s@) is None,
        },
{
    let mut out: Vec<u8> = Vec::new();
    let mut i: usize = 0;
    assert(s@.skip(0) =~= s@);
    while i < s.len()
        invariant
            i <= s@.len(),
            hex_bytes(s@) == match hex_bytes(s@.skip(i as int)) {
                Some(rest) => Some(out@ + rest),
                None => None,
            },
        decreases s@.len() - i,
    {
        if s.len() - i == 1 {
            assert(s@.skip(i as int).len() == 1);
            return None;
        }
        proof {
            lemma_hex_step(s@, i as int);
        }
        let high = hex_digit_exec(s[i]);
        let low = hex_digit_exec(s[i + 1]);
        match (high, low) {
            (Some(h), Some(l)) => {
                let ghost before = out@;
                out.push(h * 16 + l);
                proof {
                    match hex_bytes(s@.skip(i + 2)) {
                        Some(rest) => {
                            assert(before + (seq![(h * 16 + l) as u8] + rest) =~= out@ + rest);
                        },
                        None => {},
                    }
                }
            },
            _ => {
                return None;
            },
        }
        i = i + 2;
    }
    assert(s@.skip(i as int) =~= Seq::<u8>::empty());
    assert(out@ + Seq::<u8>::empty() =~= out@);
    Some(out)
}

/// The bytes that the hex text `value` spells.
pub fn decode_hex(value: &str) -> (r: Option<Vec<u8>>)
    ensures
        match r {
            Some(v) => hex_bytes(value.spec_bytes()) == Some(v@),
            None => hex_bytes(value.spec_bytes()) is None,
        },
{
    decode_hex_bytes(value.as_bytes())
}

/// An ASCII decimal digit.
pub open spec fn is_digit(b: u8) -> bool {
    48 <= b <= 57
}

/// Every byte of `s` is an ASCII decimal digit.
pub open spec fn all_digits(s: Seq<u8>) -> bool {
    forall|i: int| 0 <= i < s.len() ==> is_digit(#[trigger] s[i])
}

/// The number that the decimal digits `s` spell.
pub open spec fn digits_value(s: Seq<u8>) -> int
    decreases s.len(),
{
    if s.len() == 0 {
        0
    } else {
        digits_value(s.drop_last()) * 10 + (s.last() - 48)
    }
}

/// `s` without its leading `+`, where it has one.
pub open spec fn unsigned_part(s: Seq<u8>) -> Seq<u8> {
    if s.len() > 0 && s[0] == 43 {
        s.drop_first()
    } else {
        s
    }
}

/// The number that `u64`'s `FromStr` reads from `s`: an optional `+`,
/// then one or more ASCII digits, with a value that fits.
pub open spec fn parsed_u64(s: Seq<u8>) -> Option<u64> {
    let digits = unsigned_part(s);
    if digits.len() > 0 && all_digits(digits) && digits_value(digits) <= u64::MAX {
        Some(digits_value(digits) as u64)
    } else {
        None
    }
}

proof fn lemma_digits_value_grows(s: Seq<u8>, k: int)
    requires
        0 <= k <= s.len(),
        all_digits(s),
    ensures
        digits_value(s.take(k)) <= digits_value(s),
        0 <= digits_value(s),
    decreases s.len() - k,
{
    if k < s.len() {
        assert(all_digits(s.drop_last())) by {
            assert forall|i: int| 0 <= i < s.drop_last().len() implies is_digit(
                #[trigger] s.drop_last()[i],
            ) by {
                assert(s.drop_last()[i] == s[i]);
            }
        }
        lemma_digits_value_grows(s.drop_last(), k);
        assert(s.drop_last().take(k) =~= s.take(k));
        assert(is_digit(s[s.len() - 1]));
    } else {
        assert(s.take(k) =~= s);
        lemma_digits_nonneg(s);
    }
}

proof fn lemma_digits_nonneg(s: Seq<u8>)
    requires
        all_digits(s),
    ensures
        0 <= digits_value(s),
    decreases s.len(),
{
    if s.len() > 0 {
        assert(all_digits(s.drop_last())) by {
            assert forall|i: int| 0 <= i < s.drop_last().len() implies is_digit(
                #[trigger] s.drop_last()[i],
            ) by {
                assert(s.drop_last()[i] == s[i]);
            }
        }
        lemma_digits_nonneg(s.drop_last());
        assert(is_digit(s[s.len() - 1]));
    }
}

/// Reads a `u64` from `s` as `u64`'s `FromStr` does.
pub fn parse_u64(s: &[u8]) -> (r: Option<u64>)
    ensures
        r == parsed_u64(s@),
{
    let start: usize = if s.len() > 0 && s[0] == 43 {
        1
    } else {
        0
    };
    let ghost digits = unsigned_part(s@);
    assert(digits =~= s@.skip(start as int));
    if start == s.len() {
        return None;
    }
    let mut k = start;
    while k < s.len()
        invariant
            start <= k <= s@.len(),
            digits == unsigned_part(s@),
            digits == s@.skip(start as int),
            forall|j: int| 0 <= j < k - start ==> is_digit(#[trigger] digits[j]),
        decreases s@.len() - k,
    {
        assert(digits[k - start] == s@[k as int]);
        if s[k] < 48 || s[k] > 57 {
            assert(!is_digit(digits[k - start]));
            return None;
        }
        k = k + 1;
    }
    assert(all_digits(digits));
    let mut value: u64 = 0;
    let mut i = start;
    assert(digits.take(0) =~= Seq::<u8>::empty());
    while i < s.len()
        invariant
            start <= i <= s@.len(),
            digits == unsigned_part(s@),
            digits == s@.skip(start as int),
            all_digits(digits),
            value == digits_value(digits.take(i - start)),
        decreases s@.len() - i,
    {
        let b = s[i];
        assert(digits[i - start] == b);
        assert(is_digit(digits[i - start]));
        let d = (b - 48) as u64;
        let ghost taken = digits.take(i - start + 1);
        assert(taken.drop_last() =~= digits.take(i - start));
        assert(taken.last() == b);
        assert(digits_value(taken) == value * 10 + d);
        if value > (u64::MAX - d) / 10 {
            assert(value * 10 + d > u64::MAX) by (nonlinear_arith)
                requires
                    value > (u64::MAX - d) / 10,
                    d <= 9,
            ;
            proof {
                lemma_digits_value_grows(digits, i - start + 1);
            }
            return None;
        }
        assert(value * 10 + d <= u64::MAX) by (nonlinear_arith)
            requires
                value <= (u64::MAX - d) / 10,
                d <= 9,
        ;
        value = value * 10 + d;
        i = i + 1;
    }
    assert(digits.take(i - start) =~= digits);
    Some(value)
}

/// Splits the file panel argument into the workspace endpoint and the
/// bytes of the token and of the request payload.
pub open spec fn panel_fields(arg: Seq<u8>) -> Option<(u64, Seq<u8>, Seq<u8>)> {
    let prefix = "--system-file-panel=".spec_bytes();
    if !has_prefix(arg, prefix) {
        None
    } else {
        let rest = arg.skip(prefix.len() as int);
        let i1 = first_index(rest, 58u8);
        if i1 < 0 {
            None
        } else {
            let rest2 = rest.skip(i1 + 1);
            let i2 = first_index(rest2, 58u8);
            if i2 < 0 {
                None
            } else {
                match (
                    parsed_u64(rest.take(i1)),
                    hex_bytes(rest2.take(i2)),
                    hex_bytes(rest2.skip(i2 + 1)),
                ) {
                    (Some(e), Some(t), Some(p)) => Some((e, t, p)),
                    _ => None,
                }
            }
        }
    }
}

/// Splits the file panel argument into the workspace endpoint, the token
/// and the request payload; `None` where the argument is not one.
pub fn split_panel_argument(argument: &str) -> (r: Option<(u64, Vec<u8>, Vec<u8>)>)
    ensures
        match r {
            Some((e, t, p)) => panel_fields(argument.spec_bytes()) == Some((e, t@, p@)),
            None => panel_fields(argument.spec_bytes()) is None,
        },
{
    let arg = argument.as_bytes();
    let prefix = "--system-file-panel=".as_bytes();
    if !starts_with(arg, prefix) {
        return None;
    }
    let rest = slice_subrange(arg, prefix.len(), arg.len());
    let i1 = match find_byte(rest, 58u8) {
        Some(i) => i,
        None => {
            return None;
        },
    };
    proof {
        lemma_first_index(rest@, 58u8);
    }
    let rest2 = slice_subrange(rest, i1 + 1, rest.len());
    let i2 = match find_byte(rest2, 58u8) {
        Some(i) => i,
        None => {
            return None;
        },
    };
    proof {
        lemma_first_index(rest2@, 58u8);
    }
    let endpoint_text = slice_subrange(rest, 0, i1);
    let token_text = slice_subrange(rest2, 0, i2);
    let payload_text = slice_subrange(rest2, i2 + 1, rest2.len());
    assert(rest@ =~= arg@.skip(prefix@.len() as int));
    assert(rest2@ =~= rest@.skip(i1 + 1));
    assert(endpoint_text@ =~= rest@.take(i1 as int));
    assert(token_text@ =~= rest2@.take(i2 as int));
    assert(payload_text@ =~= rest2@.skip(i2 + 1));
    let endpoint = parse_u64(endpoint_text);
    let token = decode_hex_bytes(token_text);
    let payload = decode_hex_bytes(payload_text);
    match (endpoint, token, payload) {
        (Some(e), Some(t), Some(p)) => Some((e, t, p)),
        _ => None,
    }
}

/// The character that separates the content types of a panel request.
pub const CONTENT_TYPE_SEPARATOR: char = '\x1f';

/// The pieces of `s` read so far: those closed by a separator, and the one
/// still open.
pub open spec fn pieces_so_far(s: Seq<char>) -> (Seq<Seq<char>>, Seq<char>)
    decreases s.len(),
{
    if s.len() == 0 {
        (Seq::empty(), Seq::empty())
    } else {
        let (done, open) = pieces_so_far(s.drop_last());
        if s.last() == CONTENT_TYPE_SEPARATOR {
            (if open.len() > 0 {
                done.push(open)
            } else {
                done
            }, Seq::empty())
        } else {
            (done, open.push(s.last()))
        }
    }
}

/// The content types that a panel request lists: the non-empty pieces of
/// `s` between separators, in order.
pub open spec fn content_type_names(s: Seq<char>) -> Seq<Seq<char>> {
    let (done, open) = pieces_so_far(s);
    if open.len() > 0 {
        done.push(open)
    } else {
        done
    }
}

/// The texts of a list of strings.
pub open spec fn string_views(v: Seq<String>) -> Seq<Seq<char>> {
    v.map_values(|s: String| s@)
}

/// The content types that a panel request lists.
pub fn split_content_types(list: &str) -> (r: Vec<String>)
    ensures
        string_views(r@) == content_type_names(list@),
{
    let chars = chars_of(list);
    let mut out: Vec<String> = Vec::new();
    let mut open = String::new();
    let mut open_len: usize = 0;
    let mut i: usize = 0;
    while i < chars.len()
        invariant
            i <= chars@.len(),
            chars@ == list@,
            open_len == open@.len(),
            open_len <= i,
            pieces_so_far(chars@.take(i as int)) == (string_views(out@), open@),
        decreases chars@.len() - i,
    {
        let c = chars[i];
        assert(chars@.take(i + 1).drop_last() =~= chars@.take(i as int));
        assert(chars@.take(i + 1).last() == c);
        if c == CONTENT_TYPE_SEPARATOR {
            if open_len > 0 {
                let ghost before = out@;
                let piece = open;
                open = String::new();
                out.push(piece);
                assert(string_views(out@) =~= string_views(before).push(piece@));
            } else {
                open = String::new();
            }
            open_len = 0;
        } else {
            push_char(&mut open, c);
            open_len = open_len + 1;
        }
        i = i + 1;
    }
    assert(chars@.take(i as int) =~= chars@);
    if open_len > 0 {
        let ghost before = out@;
        out.push(open);
        assert(string_views(out@) =~= string_views(before).push(out@.last()@));
    }
    out
}

/// The folder that a file panel opens in: the requested folder where it is
/// one, else the home folder where it is one, else the root.
pub open spec fn panel_start(
    requested: Seq<u8>,
    requested_is_dir: bool,
    home: Option<Seq<u8>>,
    home_is_dir: bool,
) -> Seq<u8> {
    if requested_is_dir {
        requested
    } else {
        match home {
            Some(h) => if home_is_dir {
                h
            } else {
                seq![47u8]
            },
            None => seq![47u8],
        }
    }
}

/// The folder that a file panel opens in, given whether the requested
/// folder and the home folder (where one is set) are folders.
pub fn panel_start_directory(
    requested: &[u8],
    requested_is_dir: bool,
    home: Option<&[u8]>,
    home_is_dir: bool,
) -> (r: Vec<u8>)
    ensures
        r@ == panel_start(
            requested@,
            requested_is_dir,
            match home {
                Some(h) => Some(h@),
                None => None,
            },
            home_is_dir,
        ),
{
    if requested_is_dir {
        return copy_bytes(requested);
    }
    match home {
        Some(h) => if home_is_dir {
            copy_bytes(h)
        } else {
            let mut root: Vec<u8> = Vec::new();
            root.push(47u8);
            assert(root@ =~= seq![47u8]);
            root
        },
        None => {
            let mut root: Vec<u8> = Vec::new();
            root.push(47u8);
            assert(root@ =~= seq![47u8]);
            root
        },
    }
}

} // verus!
